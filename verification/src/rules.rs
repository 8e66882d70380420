//! The diagnostic rules, and the type that holds any one of them.

use vstd::prelude::*;
use ahash::AHashMap;
use crate::config::{ConfigError, Value, ValueData};
use crate::context::{ContextData, RuleContext};
use crate::crawler::{Crawler, CrawlerData};
use crate::fix::{LintResult, LintResultData};
use crate::rule::{Rule, RuleEvalFault};
use crate::rules::aliasing::al06::RuleAL06;
use crate::rules::aliasing::al09::RuleAL09;
use crate::rules::ambiguous::am02::RuleAM02;
use crate::rules::convention::cv05::RuleCV05;
use crate::rules::layout::lt09::RuleLT09;
use crate::rules::structure::st08::RuleST08;
use crate::segment::SegmentData;

pub mod aliasing;
pub mod ambiguous;
pub mod convention;
pub mod layout;
pub mod structure;

verus! {

/// Any one of the rules. The engine treats every rule alike, through the
/// [`Rule`] contract.
#[derive(Debug, Clone, Copy)]
pub enum ErasedRule {
    AL06(RuleAL06),
    AL09(RuleAL09),
    AM02(RuleAM02),
    CV05(RuleCV05),
    LT09(RuleLT09),
    ST08(RuleST08),
}

impl Rule for ErasedRule {
    open spec fn name_spec(&self) -> Seq<char> {
        match self {
            ErasedRule::AL06(r) => r.name_spec(),
            ErasedRule::AL09(r) => r.name_spec(),
            ErasedRule::AM02(r) => r.name_spec(),
            ErasedRule::CV05(r) => r.name_spec(),
            ErasedRule::LT09(r) => r.name_spec(),
            ErasedRule::ST08(r) => r.name_spec(),
        }
    }

    open spec fn description_spec(&self) -> Seq<char> {
        match self {
            ErasedRule::AL06(r) => r.description_spec(),
            ErasedRule::AL09(r) => r.description_spec(),
            ErasedRule::AM02(r) => r.description_spec(),
            ErasedRule::CV05(r) => r.description_spec(),
            ErasedRule::LT09(r) => r.description_spec(),
            ErasedRule::ST08(r) => r.description_spec(),
        }
    }

    open spec fn crawl_targets(&self) -> CrawlerData {
        match self {
            ErasedRule::AL06(r) => r.crawl_targets(),
            ErasedRule::AL09(r) => r.crawl_targets(),
            ErasedRule::AM02(r) => r.crawl_targets(),
            ErasedRule::CV05(r) => r.crawl_targets(),
            ErasedRule::LT09(r) => r.crawl_targets(),
            ErasedRule::ST08(r) => r.crawl_targets(),
        }
    }

    open spec fn load_spec(&self, entries: Map<Seq<char>, ValueData>) -> Result<
        ErasedRule,
        Seq<char>,
    > {
        match self {
            ErasedRule::AL06(r) => r.load_spec(entries),
            ErasedRule::AL09(r) => r.load_spec(entries),
            ErasedRule::AM02(r) => r.load_spec(entries),
            ErasedRule::CV05(r) => r.load_spec(entries),
            ErasedRule::LT09(r) => r.load_spec(entries),
            ErasedRule::ST08(r) => r.load_spec(entries),
        }
    }

    open spec fn eval_spec(
        &self,
        a: Seq<SegmentData>,
        cx: ContextData,
        dialect: Seq<char>,
        entries: Map<Seq<char>, ValueData>,
    ) -> Result<Seq<LintResultData>, RuleEvalFault> {
        match self {
            ErasedRule::AL06(r) => r.eval_spec(a, cx, dialect, entries),
            ErasedRule::AL09(r) => r.eval_spec(a, cx, dialect, entries),
            ErasedRule::AM02(r) => r.eval_spec(a, cx, dialect, entries),
            ErasedRule::CV05(r) => r.eval_spec(a, cx, dialect, entries),
            ErasedRule::LT09(r) => r.eval_spec(a, cx, dialect, entries),
            ErasedRule::ST08(r) => r.eval_spec(a, cx, dialect, entries),
        }
    }

    fn name(&self) -> (out: &'static str) {
        match self {
            ErasedRule::AL06(r) => r.name(),
            ErasedRule::AL09(r) => r.name(),
            ErasedRule::AM02(r) => r.name(),
            ErasedRule::CV05(r) => r.name(),
            ErasedRule::LT09(r) => r.name(),
            ErasedRule::ST08(r) => r.name(),
        }
    }

    fn description(&self) -> (out: &'static str) {
        match self {
            ErasedRule::AL06(r) => r.description(),
            ErasedRule::AL09(r) => r.description(),
            ErasedRule::AM02(r) => r.description(),
            ErasedRule::CV05(r) => r.description(),
            ErasedRule::LT09(r) => r.description(),
            ErasedRule::ST08(r) => r.description(),
        }
    }

    fn crawl_behaviour(&self) -> (out: Crawler) {
        match self {
            ErasedRule::AL06(r) => r.crawl_behaviour(),
            ErasedRule::AL09(r) => r.crawl_behaviour(),
            ErasedRule::AM02(r) => r.crawl_behaviour(),
            ErasedRule::CV05(r) => r.crawl_behaviour(),
            ErasedRule::LT09(r) => r.crawl_behaviour(),
            ErasedRule::ST08(r) => r.crawl_behaviour(),
        }
    }

    fn load_from_config(&self, config: &AHashMap<String, Value>) -> (out: Result<
        ErasedRule,
        ConfigError,
    >) {
        match self {
            ErasedRule::AL06(r) => r.load_from_config(config),
            ErasedRule::AL09(r) => r.load_from_config(config),
            ErasedRule::AM02(r) => r.load_from_config(config),
            ErasedRule::CV05(r) => r.load_from_config(config),
            ErasedRule::LT09(r) => r.load_from_config(config),
            ErasedRule::ST08(r) => r.load_from_config(config),
        }
    }

    fn eval(&self, cx: &RuleContext) -> (out: Result<Vec<LintResult>, RuleEvalFault>) {
        match self {
            ErasedRule::AL06(r) => r.eval(cx),
            ErasedRule::AL09(r) => r.eval(cx),
            ErasedRule::AM02(r) => r.eval(cx),
            ErasedRule::CV05(r) => r.eval(cx),
            ErasedRule::LT09(r) => r.eval(cx),
            ErasedRule::ST08(r) => r.eval(cx),
        }
    }
}

} // verus!
