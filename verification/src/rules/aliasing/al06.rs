//! Alias length: aliases of tables in a `FROM` clause are neither too
//! short nor too long.

use vstd::prelude::*;
use vstd::string::*;
use ahash::AHashMap;
use crate::config::{length_option, read_length_option, ConfigError, Value, ValueData};
use crate::context::{ContextData, RuleContext};
use crate::crawler::{
    crawl_ids, recursive_crawl, seeker_of, Crawler, CrawlerData, SegmentSeekerCrawler,
};
use crate::fix::{results_view, LintResult, LintResultData};
use crate::query::all_below;
use crate::rule::{Rule, RuleEvalFault};
use crate::rules::ErasedRule;
use crate::segment::{first_child, text_of, SegmentArena, SegmentData};

verus! {

/// What `{:?}` prints for an optional length.
pub uninterp spec fn debug_text_of(limit: Option<u32>) -> Seq<char>;

/// Formats an optional length with `format!("{:?}", ..)`. The result is a
/// function of the value alone; the contract gives it the name
/// [`debug_text_of`] and claims nothing else about it.
#[verifier::external_body]
fn debug_text(limit: Option<u32>) -> (out: String)
    ensures
        out@ == debug_text_of(limit),
{
    format!("{:?}", limit)
}

/// The rule on the length of table aliases.
#[derive(Debug, Clone, Copy)]
pub struct RuleAL06 {
    pub min_alias_lenght: Option<u32>,
    pub max_alias_lenght: Option<u32>,
}

/// The types under which an alias carries its identifier.
pub open spec fn identifier_types() -> Seq<Seq<char>> {
    seq!["identifier"@, "naked_identifier"@, "quoted_identifier"@]
}

/// The message on an alias that is too short, given the least length
/// as text.
pub open spec fn too_short_text(limit: Seq<char>) -> Seq<char> {
    "Aliases should be at least '"@ + limit + "' character(s) long"@
}

/// The message on an alias that is too long, given the greatest length
/// as text.
pub open spec fn too_long_text(limit: Seq<char>) -> Seq<char> {
    "Aliases should be no more than '"@ + limit + "' character(s) long."@
}

/// The message on an alias shorter than `limit`.
pub open spec fn too_short_message(limit: Option<u32>) -> Seq<char> {
    too_short_text(debug_text_of(limit))
}

/// The message on an alias longer than `limit`.
pub open spec fn too_long_message(limit: Option<u32>) -> Seq<char> {
    too_long_text(debug_text_of(limit))
}

/// The message on an alias that is too short.
pub fn at_least_message(limit: &str) -> (out: String)
    ensures
        out@ == too_short_text(limit@),
{
    let mut message = String::from_str("Aliases should be at least '");
    message.append(limit);
    message.append("' character(s) long");
    message
}

/// The message on an alias that is too long.
pub fn no_more_than_message(limit: &str) -> (out: String)
    ensures
        out@ == too_long_text(limit@),
{
    let mut message = String::from_str("Aliases should be no more than '");
    message.append(limit);
    message.append("' character(s) long.");
    message
}

/// A violation at `anchor` that carries a message and no fix.
pub open spec fn diagnostic_at(anchor: usize, message: Seq<char>) -> LintResultData {
    LintResultData {
        anchor,
        fixes: Seq::empty(),
        description: Some(message),
        context: Seq::empty(),
    }
}

/// The alias identifier of a `FROM` expression element that names a
/// table and gives it an alias.
pub open spec fn alias_identifier(a: Seq<SegmentData>, element: usize) -> Option<usize> {
    match first_child(a, element as int, seq!["table_expression"@]) {
        Some(table) => match first_child(a, table as int, seq!["object_reference"@]) {
            Some(_) => match first_child(a, element as int, seq!["alias_expression"@]) {
                Some(alias) => first_child(a, alias as int, identifier_types()),
                None => None,
            },
            None => None,
        },
        None => None,
    }
}

impl RuleAL06 {
    /// The violations on one `FROM` expression element: one if its alias
    /// is shorter than the minimum, one if it is longer than the maximum,
    /// each at the alias identifier.
    pub open spec fn element_findings(&self, a: Seq<SegmentData>, element: usize) -> Seq<
        LintResultData,
    > {
        match alias_identifier(a, element) {
            Some(ident) => {
                let n = text_of(a, ident as int).len();
                let short = match self.min_alias_lenght {
                    Some(min) => if n < min {
                        seq![diagnostic_at(ident, too_short_message(self.min_alias_lenght))]
                    } else {
                        Seq::empty()
                    },
                    None => Seq::empty(),
                };
                let long = match self.max_alias_lenght {
                    Some(max) => if n > max {
                        seq![diagnostic_at(ident, too_long_message(self.max_alias_lenght))]
                    } else {
                        Seq::empty()
                    },
                    None => Seq::empty(),
                };
                short + long
            },
            None => Seq::empty(),
        }
    }

    /// The violations on the elements `elements`, in order.
    pub open spec fn findings(&self, a: Seq<SegmentData>, elements: Seq<usize>) -> Seq<
        LintResultData,
    >
        decreases elements.len(),
    {
        if elements.len() == 0 {
            Seq::empty()
        } else {
            self.findings(a, elements.drop_last()) + self.element_findings(a, elements.last())
        }
    }

    /// The rule with no bound on either side.
    pub open spec fn default_spec() -> RuleAL06 {
        RuleAL06 { min_alias_lenght: None, max_alias_lenght: None }
    }

    /// This rule as one of the rules.
    pub fn erased(self) -> (out: ErasedRule)
        ensures
            out == ErasedRule::AL06(self),
    {
        ErasedRule::AL06(self)
    }

    fn alias_identifier_of(arena: &SegmentArena, element: usize) -> (out: Option<usize>)
        requires
            arena.wf(),
            element < arena@.len(),
        ensures
            out == alias_identifier(arena@, element),
            out matches Some(k) ==> k < arena@.len(),
    {
        let table = match arena.child_of_type(element, "table_expression") {
            Some(t) => t,
            None => {
                return None;
            },
        };
        if arena.child_of_type(table, "object_reference").is_none() {
            return None;
        }
        let alias = match arena.child_of_type(element, "alias_expression") {
            Some(t) => t,
            None => {
                return None;
            },
        };
        let ident_types = ["identifier", "naked_identifier", "quoted_identifier"];
        assert(crate::segment::views_of(ident_types@) =~= identifier_types());
        arena.child(alias, &ident_types)
    }

    /// Checks the aliases of the given `FROM` expression elements.
    pub fn lint_aliases(&self, arena: &SegmentArena, from_expression_elements: Vec<usize>) -> (out:
        Vec<LintResult>)
        requires
            arena.wf(),
            all_below(from_expression_elements@, arena@.len()),
        ensures
            results_view(out@) == self.findings(arena@, from_expression_elements@),
    {
        let mut violation_buff: Vec<LintResult> = Vec::new();
        let ghost a = arena@;
        let ghost elements = from_expression_elements@;
        let mut i: usize = 0;
        proof {
            assert(results_view(violation_buff@) =~= Seq::<LintResultData>::empty());
        }
        while i < from_expression_elements.len()
            invariant
                arena.wf(),
                a == arena@,
                elements == from_expression_elements@,
                all_below(elements, a.len()),
                0 <= i <= elements.len(),
                results_view(violation_buff@) == self.findings(a, elements.take(i as int)),
            decreases elements.len() - i,
        {
            let element = from_expression_elements[i];
            let ghost before = results_view(violation_buff@);
            proof {
                assert(elements.take(i + 1).drop_last() == elements.take(i as int));
                assert(before + Seq::<LintResultData>::empty() =~= before);
            }
            if let Some(ident) = Self::alias_identifier_of(arena, element) {
                let raw = arena.raw_of(ident);
                let n = raw.as_str().unicode_len();
                let ghost mut short: Seq<LintResultData> = Seq::empty();
                if let Some(min) = self.min_alias_lenght {
                    if n < min as usize {
                        let message = at_least_message(
                            debug_text(self.min_alias_lenght).as_str(),
                        );
                        let found = LintResult::new(ident, Vec::new(), Some(message), Vec::new());
                        proof {
                            short = seq![found@];
                            assert(found@.fixes =~= Seq::empty());
                            assert(found@ == diagnostic_at(
                                ident,
                                too_short_message(self.min_alias_lenght),
                            ));
                        }
                        violation_buff.push(found);
                    }
                }
                proof {
                    assert(results_view(violation_buff@) =~= before + short);
                }
                let ghost mut long: Seq<LintResultData> = Seq::empty();
                if let Some(max) = self.max_alias_lenght {
                    if n > max as usize {
                        let message = no_more_than_message(
                            debug_text(self.max_alias_lenght).as_str(),
                        );
                        let found = LintResult::new(ident, Vec::new(), Some(message), Vec::new());
                        proof {
                            long = seq![found@];
                            assert(found@.fixes =~= Seq::empty());
                            assert(found@ == diagnostic_at(
                                ident,
                                too_long_message(self.max_alias_lenght),
                            ));
                        }
                        violation_buff.push(found);
                    }
                }
                proof {
                    assert(results_view(violation_buff@) =~= before + (short + long));
                }
            }
            i = i + 1;
        }
        proof {
            assert(elements.take(i as int) == elements);
        }
        violation_buff
    }
}

impl Default for RuleAL06 {
    fn default() -> (out: RuleAL06)
        ensures
            out == RuleAL06::default_spec(),
    {
        RuleAL06 { min_alias_lenght: None, max_alias_lenght: None }
    }
}

impl Rule for RuleAL06 {
    open spec fn name_spec(&self) -> Seq<char> {
        "aliasing.lenght"@
    }

    open spec fn description_spec(&self) -> Seq<char> {
        "Identify aliases in from clause and join conditions"@
    }

    open spec fn crawl_targets(&self) -> CrawlerData {
        seeker_of("from_expression_element"@)
    }

    open spec fn load_spec(&self, entries: Map<Seq<char>, ValueData>) -> Result<
        ErasedRule,
        Seq<char>,
    > {
        match length_option(entries, "min_alias_length"@) {
            Ok(min) => match length_option(entries, "max_alias_length"@) {
                Ok(max) => Ok(
                    ErasedRule::AL06(RuleAL06 { min_alias_lenght: min, max_alias_lenght: max }),
                ),
                Err(_) => Err("max_alias_length"@),
            },
            Err(_) => Err("min_alias_length"@),
        }
    }

    open spec fn eval_spec(
        &self,
        a: Seq<SegmentData>,
        cx: ContextData,
        dialect: Seq<char>,
        entries: Map<Seq<char>, ValueData>,
    ) -> Result<Seq<LintResultData>, RuleEvalFault> {
        Ok(
            self.findings(
                a,
                crawl_ids(
                    a,
                    cx.segment as int,
                    seq!["from_expression_element"@],
                    false,
                    None,
                    true,
                ),
            ),
        )
    }

    fn name(&self) -> (out: &'static str) {
        "aliasing.lenght"
    }

    fn description(&self) -> (out: &'static str) {
        "Identify aliases in from clause and join conditions"
    }

    fn crawl_behaviour(&self) -> (out: Crawler) {
        SegmentSeekerCrawler::for_type("from_expression_element")
    }

    fn load_from_config(&self, config: &AHashMap<String, Value>) -> (out: Result<
        ErasedRule,
        ConfigError,
    >) {
        let min = match read_length_option(config, "min_alias_length") {
            Ok(n) => n,
            Err(e) => {
                return Err(e);
            },
        };
        let max = match read_length_option(config, "max_alias_length") {
            Ok(n) => n,
            Err(e) => {
                return Err(e);
            },
        };
        Ok(RuleAL06 { min_alias_lenght: min, max_alias_lenght: max }.erased())
    }

    fn eval(&self, cx: &RuleContext) -> (out: Result<Vec<LintResult>, RuleEvalFault>) {
        let types = ["from_expression_element"];
        let from_expression_elements = recursive_crawl(
            cx.arena,
            cx.segment,
            &types,
            false,
            None,
            true,
        );
        assert(crate::segment::views_of(types@) =~= seq!["from_expression_element"@]);
        Ok(self.lint_aliases(cx.arena, from_expression_elements))
    }
}

} // verus!
