use ahash::AHashMap;
use sqruff_lib::api::{fix, lint, SyntaxTree};
use sqruff_lib::config::Value;
use sqruff_lib::fixer::FixState;
use sqruff_lib::linter::{Diagnostic, Violation};
use sqruff_lib::rules::aliasing::al06::RuleAL06;
use sqruff_lib::rules::aliasing::al09::RuleAL09;
use sqruff_lib::rules::ambiguous::am02::RuleAM02;
use sqruff_lib::rules::convention::cv05::{
    create_base_is_null_sequence, CorrectionListItem, RuleCV05,
};
use sqruff_lib::rules::layout::lt09::RuleLT09;
use sqruff_lib::rules::structure::st08::RuleST08;
use sqruff_lib::rules::ErasedRule;
use sqruff_lib::segment::SegmentArena;

// A small parser that stands in for the real one: it covers the
// statements that these tests use, and keeps every character.

#[derive(Clone, Debug)]
struct Tok {
    kind: &'static str,
    raw: String,
}

const KEYWORDS: [&str; 32] = [
    "select", "from", "where", "as", "union", "all", "distinct", "join", "left", "right",
    "inner", "outer", "full", "cross", "on", "and", "or", "not", "is", "in", "update", "set",
    "alter", "table", "options", "exec", "add", "constraint", "exclude", "with", "group", "by",
];

fn lex(sql: &str) -> Vec<Tok> {
    let chars: Vec<char> = sql.chars().collect();
    let mut out = Vec::new();
    let mut i = 0;
    while i < chars.len() {
        let c = chars[i];
        let start = i;
        let kind: &'static str;
        if c == ' ' || c == '\t' {
            while i < chars.len() && (chars[i] == ' ' || chars[i] == '\t') {
                i += 1;
            }
            kind = "whitespace";
        } else if c == '\n' {
            i += 1;
            kind = "newline";
        } else if c == '-' && i + 1 < chars.len() && chars[i + 1] == '-' {
            while i < chars.len() && chars[i] != '\n' {
                i += 1;
            }
            kind = "inline_comment";
        } else if c == '"' || c == '\'' {
            let mut j = i + 1;
            while j < chars.len() && chars[j] != c && chars[j] != '\n' {
                j += 1;
            }
            if j < chars.len() && chars[j] == c {
                i = j + 1;
                kind = if c == '"' { "quoted_identifier" } else { "quoted_literal" };
            } else {
                i += 1;
                kind = "symbol";
            }
        } else if c.is_ascii_digit() {
            while i < chars.len() && chars[i].is_ascii_digit() {
                i += 1;
            }
            kind = "numeric_literal";
        } else if c.is_alphabetic() || c == '_' || c == '@' {
            while i < chars.len() && (chars[i].is_alphanumeric() || chars[i] == '_' || chars[i] == '@') {
                i += 1;
            }
            let word: String = chars[start..i].iter().collect();
            let lower = word.to_lowercase();
            kind = if word.starts_with('@') {
                "parameter"
            } else if lower == "null" {
                "null_literal"
            } else if KEYWORDS.contains(&lower.as_str()) {
                "keyword"
            } else {
                "naked_identifier"
            };
        } else if c == '<' || c == '>' || c == '=' || c == '!' {
            i += 1;
            if i < chars.len() && (chars[i] == '=' || (c == '<' && chars[i] == '>')) {
                i += 1;
            }
            kind = "raw_comparison_operator";
        } else {
            i += 1;
            kind = match c {
                ',' => "comma",
                '(' => "start_bracket",
                ')' => "end_bracket",
                '.' => "dot",
                ';' => "statement_terminator",
                '*' => "star",
                '+' | '-' | '/' => "binary_operator",
                _ => "symbol",
            };
        }
        out.push(Tok { kind, raw: chars[start..i].iter().collect() });
    }
    out
}

struct Parser {
    toks: Vec<Tok>,
    pos: usize,
    arena: SegmentArena,
    dialect: String,
}

fn is_trivia(kind: &str) -> bool {
    kind == "whitespace" || kind == "newline" || kind == "inline_comment"
}

impl Parser {
    fn leaf(&mut self) -> usize {
        let t = self.toks[self.pos].clone();
        self.pos += 1;
        self.arena.add_leaf(t.kind, &t.raw)
    }

    fn leaf_as(&mut self, kind: &str) -> usize {
        let t = self.toks[self.pos].clone();
        self.pos += 1;
        self.arena.add_leaf(kind, &t.raw)
    }

    fn node(&mut self, kind: &str, kids: Vec<usize>) -> usize {
        self.arena.add_node(kind, kids).unwrap()
    }

    fn meta(&mut self, kind: &str) -> usize {
        self.arena.add_leaf(kind, "")
    }

    fn eof(&self) -> bool {
        self.pos >= self.toks.len()
    }

    fn kind(&self) -> &'static str {
        if self.eof() { "eof" } else { self.toks[self.pos].kind }
    }

    fn word(&self) -> String {
        if self.eof() { String::new() } else { self.toks[self.pos].raw.to_lowercase() }
    }

    fn is_kw(&self, w: &str) -> bool {
        self.kind() == "keyword" && self.word() == w
    }

    /// The place of the next token that is no trivia.
    fn next_code(&self) -> usize {
        let mut p = self.pos;
        while p < self.toks.len() && is_trivia(self.toks[p].kind) {
            p += 1;
        }
        p
    }

    fn code_is_kw(&self, w: &str) -> bool {
        let p = self.next_code();
        p < self.toks.len() && self.toks[p].kind == "keyword" && self.toks[p].raw.to_lowercase() == w
    }

    fn code_kind(&self) -> &'static str {
        let p = self.next_code();
        if p < self.toks.len() { self.toks[p].kind } else { "eof" }
    }

    fn trivia(&mut self, into: &mut Vec<usize>) {
        while !self.eof() && is_trivia(self.kind()) {
            let l = self.leaf();
            into.push(l);
        }
    }

    fn file(&mut self) -> usize {
        let mut kids = Vec::new();
        loop {
            self.trivia(&mut kids);
            if self.eof() {
                break;
            }
            if self.is_kw("select") {
                let s = self.set_expression();
                let st = self.node("statement", vec![s]);
                kids.push(st);
            } else if self.is_kw("union") {
                let s = self.set_operator();
                kids.push(s);
            } else if self.is_kw("update") {
                let s = self.update_statement();
                let st = self.node("statement", vec![s]);
                kids.push(st);
            } else if self.is_kw("alter") {
                let s = self.alter_statement();
                let st = self.node("statement", vec![s]);
                kids.push(st);
            } else if self.is_kw("exec") {
                let s = self.exec_statement();
                let st = self.node("statement", vec![s]);
                kids.push(st);
            } else {
                let l = self.leaf();
                kids.push(l);
            }
        }
        let end = self.meta("end_of_file");
        kids.push(end);
        self.node("file", kids)
    }

    fn set_operator(&mut self) -> usize {
        let mut kids = vec![self.leaf()];
        if self.kind() == "whitespace"
            && self.pos + 1 < self.toks.len()
            && self.toks[self.pos + 1].kind == "keyword"
            && ["all", "distinct"].contains(&self.toks[self.pos + 1].raw.to_lowercase().as_str())
        {
            let ws = self.leaf();
            kids.push(ws);
            let q = self.leaf();
            kids.push(q);
        }
        self.node("set_operator", kids)
    }

    fn set_expression(&mut self) -> usize {
        let first = self.select_statement();
        if !self.code_is_kw("union") {
            return first;
        }
        let mut kids = vec![first];
        while self.code_is_kw("union") {
            self.trivia(&mut kids);
            let op = self.set_operator();
            kids.push(op);
            if self.code_is_kw("select") {
                self.trivia(&mut kids);
                let s = self.select_statement();
                kids.push(s);
            } else {
                break;
            }
        }
        self.node("set_expression", kids)
    }

    fn select_statement(&mut self) -> usize {
        let clause = self.select_clause();
        let mut kids = vec![clause];
        loop {
            if self.code_is_kw("from") {
                self.trivia(&mut kids);
                let f = self.from_clause();
                kids.push(f);
            } else if self.code_is_kw("where") {
                self.trivia(&mut kids);
                let w = self.where_clause();
                kids.push(w);
            } else {
                break;
            }
        }
        self.node("select_statement", kids)
    }

    fn select_clause(&mut self) -> usize {
        let mut kids = vec![self.leaf()];
        if self.code_is_kw("distinct") || self.code_is_kw("all") {
            self.trivia(&mut kids);
            let m = self.leaf();
            let modifier = self.node("select_clause_modifier", vec![m]);
            kids.push(modifier);
        }
        let indent = self.meta("indent");
        kids.push(indent);
        loop {
            let k = self.code_kind();
            if k == "eof" || k == "symbol" || k == "statement_terminator" || k == "keyword" {
                break;
            }
            self.trivia(&mut kids);
            let e = self.select_clause_element();
            kids.push(e);
            if self.code_kind() == "comma" {
                self.trivia(&mut kids);
                let c = self.leaf();
                kids.push(c);
            } else {
                break;
            }
        }
        let dedent = self.meta("dedent");
        kids.push(dedent);
        self.node("select_clause", kids)
    }

    fn alias_follows(&self) -> bool {
        if self.kind() != "whitespace" || self.pos + 1 >= self.toks.len() {
            return false;
        }
        let t = &self.toks[self.pos + 1];
        (t.kind == "keyword" && t.raw.to_lowercase() == "as")
            || t.kind == "naked_identifier"
            || t.kind == "quoted_identifier"
    }

    fn alias_expression(&mut self) -> usize {
        let mut kids = Vec::new();
        if self.is_kw("as") {
            let a = self.leaf();
            kids.push(a);
            self.trivia(&mut kids);
        }
        if self.kind() == "naked_identifier" || self.kind() == "quoted_identifier" {
            let i = self.leaf();
            kids.push(i);
        }
        self.node("alias_expression", kids)
    }

    fn select_clause_element(&mut self) -> usize {
        let mut kids = Vec::new();
        if self.dialect == "tsql"
            && self.kind() == "naked_identifier"
            && self.pos + 2 < self.toks.len()
            && self.toks[self.pos + 1].kind == "whitespace"
            && self.toks[self.pos + 2].raw == "="
        {
            let name = self.leaf();
            let ws = self.leaf();
            let eq = self.leaf();
            let op = self.node("alias_operator", vec![eq]);
            let alias = self.node("alias_expression", vec![name, ws, op]);
            kids.push(alias);
            self.trivia(&mut kids);
        }
        let items = self.expression_items(true);
        if items.len() == 1 && self.arena.kind(items[0]) != "bracketed" {
            kids.push(items[0]);
        } else {
            let e = self.node("expression", items);
            kids.push(e);
        }
        if self.alias_follows() {
            let ws = self.leaf();
            kids.push(ws);
            let a = self.alias_expression();
            kids.push(a);
        }
        self.node("select_clause_element", kids)
    }

    fn reference(&mut self, kind: &str) -> usize {
        let mut kids = vec![self.leaf()];
        while self.kind() == "dot" {
            let d = self.leaf();
            kids.push(d);
            if self.kind() == "naked_identifier" || self.kind() == "quoted_identifier" {
                let i = self.leaf();
                kids.push(i);
            }
        }
        self.node(kind, kids)
    }

    fn bracketed(&mut self) -> usize {
        let mut kids = vec![self.leaf()];
        let indent = self.meta("indent");
        kids.push(indent);
        self.trivia(&mut kids);
        let items = self.expression_items(false);
        if items.len() == 1 && self.arena.kind(items[0]) != "function" {
            kids.push(items[0]);
        } else if !items.is_empty() {
            let e = self.node("expression", items);
            kids.push(e);
        }
        self.trivia(&mut kids);
        let dedent = self.meta("dedent");
        kids.push(dedent);
        if self.kind() == "end_bracket" {
            let c = self.leaf();
            kids.push(c);
        }
        self.node("bracketed", kids)
    }

    fn term(&mut self) -> Option<usize> {
        match self.kind() {
            "naked_identifier" | "quoted_identifier" => {
                if self.kind() == "naked_identifier"
                    && self.pos + 1 < self.toks.len()
                    && self.toks[self.pos + 1].kind == "start_bracket"
                {
                    let n = self.leaf_as("function_name_identifier");
                    let name = self.node("function_name", vec![n]);
                    let b = self.bracketed();
                    Some(self.node("function", vec![name, b]))
                } else {
                    Some(self.reference("column_reference"))
                }
            }
            "numeric_literal" | "quoted_literal" | "null_literal" | "parameter" | "binary_operator" => {
                Some(self.leaf())
            }
            "star" => {
                let s = self.leaf();
                Some(self.node("wildcard_expression", vec![s]))
            }
            "start_bracket" => Some(self.bracketed()),
            "raw_comparison_operator" => {
                let r = self.leaf();
                Some(self.node("comparison_operator", vec![r]))
            }
            "keyword" => {
                let w = self.word();
                if w == "and" || w == "or" {
                    Some(self.leaf_as("binary_operator"))
                } else if w == "is" || w == "not" || w == "in" {
                    Some(self.leaf())
                } else if w == "distinct" && self.pos + 1 < self.toks.len()
                    && self.toks[self.pos + 1].kind == "start_bracket"
                {
                    let n = self.leaf_as("function_name_identifier");
                    let name = self.node("function_name", vec![n]);
                    let b = self.bracketed();
                    Some(self.node("function", vec![name, b]))
                } else {
                    None
                }
            }
            _ => None,
        }
    }

    /// The terms of an expression with the trivia between them.
    fn expression_items(&mut self, in_select: bool) -> Vec<usize> {
        let mut items: Vec<usize> = Vec::new();
        loop {
            let save = self.pos;
            let mut between = Vec::new();
            if !items.is_empty() {
                let last = self.arena.kind(items[items.len() - 1]).to_string();
                let operand = last != "binary_operator" && last != "comparison_operator" && last != "keyword";
                if in_select && operand && self.alias_follows() {
                    break;
                }
                self.trivia(&mut between);
            }
            match self.term() {
                Some(t) => {
                    items.append(&mut between);
                    items.push(t);
                }
                None => {
                    self.pos = save;
                    break;
                }
            }
        }
        items
    }

    fn from_expression_element(&mut self) -> usize {
        let r = self.reference("object_reference");
        let t = self.node("table_expression", vec![r]);
        let mut kids = vec![t];
        if self.alias_follows() {
            let ws = self.leaf();
            kids.push(ws);
            let a = self.alias_expression();
            kids.push(a);
        }
        self.node("from_expression_element", kids)
    }

    fn from_clause(&mut self) -> usize {
        let mut kids = vec![self.leaf()];
        self.trivia(&mut kids);
        let mut inner = Vec::new();
        if self.kind() == "naked_identifier" || self.kind() == "quoted_identifier" {
            let e = self.from_expression_element();
            inner.push(e);
        }
        loop {
            let p = self.next_code();
            let joins = p < self.toks.len()
                && self.toks[p].kind == "keyword"
                && ["join", "left", "right", "inner", "outer", "full", "cross"]
                    .contains(&self.toks[p].raw.to_lowercase().as_str());
            if !joins {
                break;
            }
            self.trivia(&mut inner);
            let mut join = Vec::new();
            while self.kind() == "keyword" && !self.is_kw("on") {
                let k = self.leaf();
                join.push(k);
                if self.kind() == "whitespace" {
                    let ws = self.leaf();
                    join.push(ws);
                }
            }
            if self.kind() == "naked_identifier" || self.kind() == "quoted_identifier" {
                let e = self.from_expression_element();
                join.push(e);
            }
            if self.code_is_kw("on") {
                self.trivia(&mut join);
                let mut on = vec![self.leaf()];
                self.trivia(&mut on);
                let items = self.expression_items(false);
                let e = self.node("expression", items);
                on.push(e);
                let c = self.node("join_on_condition", on);
                join.push(c);
            }
            let j = self.node("join_clause", join);
            inner.push(j);
        }
        let fe = self.node("from_expression", inner);
        kids.push(fe);
        self.node("from_clause", kids)
    }

    fn where_clause(&mut self) -> usize {
        let mut kids = vec![self.leaf()];
        self.trivia(&mut kids);
        let items = self.expression_items(false);
        let e = self.node("expression", items);
        kids.push(e);
        self.node("where_clause", kids)
    }

    fn update_statement(&mut self) -> usize {
        let mut kids = vec![self.leaf()];
        self.trivia(&mut kids);
        let t = self.reference("table_reference");
        kids.push(t);
        self.trivia(&mut kids);
        if self.is_kw("set") {
            let mut list = vec![self.leaf()];
            self.trivia(&mut list);
            let items = self.expression_items(false);
            let clause = self.node("set_clause", items);
            list.push(clause);
            let l = self.node("set_clause_list", list);
            kids.push(l);
        }
        if self.code_is_kw("where") {
            self.trivia(&mut kids);
            let w = self.where_clause();
            kids.push(w);
        }
        self.node("update_statement", kids)
    }

    fn alter_statement(&mut self) -> usize {
        let mut kids = Vec::new();
        while !self.eof() && self.kind() != "statement_terminator" {
            if self.is_kw("options") {
                let mut opt = vec![self.leaf()];
                self.trivia(&mut opt);
                if self.kind() == "start_bracket" {
                    let mut b = vec![self.leaf()];
                    let mut items = self.expression_items(false);
                    b.append(&mut items);
                    if self.kind() == "end_bracket" {
                        let c = self.leaf();
                        b.push(c);
                    }
                    let br = self.node("bracketed", b);
                    opt.push(br);
                }
                let o = self.node("options_segment", opt);
                kids.push(o);
            } else if self.is_kw("exclude") {
                let x = self.leaf();
                kids.push(x);
                self.trivia(&mut kids);
                if self.kind() == "start_bracket" {
                    let mut b = vec![self.leaf()];
                    let mut el = Vec::new();
                    while !self.eof() && self.kind() != "end_bracket" {
                        if self.kind() == "raw_comparison_operator" {
                            let r = self.leaf();
                            let op = self.node("comparison_operator", vec![r]);
                            el.push(op);
                        } else {
                            let l = self.leaf();
                            el.push(l);
                        }
                    }
                    let e = self.node("exclusion_constraint_element", el);
                    b.push(e);
                    if self.kind() == "end_bracket" {
                        let c = self.leaf();
                        b.push(c);
                    }
                    let br = self.node("bracketed", b);
                    kids.push(br);
                }
            } else {
                let l = self.leaf();
                kids.push(l);
            }
        }
        self.node("alter_table_statement", kids)
    }

    fn exec_statement(&mut self) -> usize {
        let mut kids = Vec::new();
        while !self.eof() && self.kind() != "statement_terminator" {
            if self.kind() == "raw_comparison_operator" {
                let r = self.leaf();
                let op = self.node("comparison_operator", vec![r]);
                kids.push(op);
            } else {
                let l = self.leaf();
                kids.push(l);
            }
        }
        self.node("execute_script_statement", kids)
    }
}

fn parse(sql: &str, dialect: &str) -> SyntaxTree {
    let mut p = Parser { toks: lex(sql), pos: 0, arena: SegmentArena::new(), dialect: dialect.to_string() };
    let root = p.file();
    match SyntaxTree::from_parsed(sql, p.arena, root) {
        Ok(tree) => tree,
        Err(e) => panic!("{}", e.message),
    }
}

fn lint_sql(sql: &str, dialect: &str, rules: Vec<ErasedRule>) -> Vec<Violation> {
    let config: AHashMap<String, Value> = AHashMap::new();
    let report = lint(Ok(parse(sql, dialect)), dialect, rules, &config).ok().unwrap();
    assert!(report.diagnostics.is_empty());
    report.violations
}

fn faults_of(sql: &str, dialect: &str, rules: Vec<ErasedRule>) -> Vec<String> {
    let config: AHashMap<String, Value> = AHashMap::new();
    let report = lint(Ok(parse(sql, dialect)), dialect, rules, &config).ok().unwrap();
    report
        .diagnostics
        .iter()
        .map(|d| match d {
            Diagnostic::RuleEvalFault { rule_name, .. } => rule_name.clone(),
            _ => panic!("another diagnostic"),
        })
        .collect()
}

fn fix_sql(sql: &str, rules: Vec<ErasedRule>) -> String {
    let config: AHashMap<String, Value> = AHashMap::new();
    let report = fix(Ok(parse(sql, "ansi")), rules, "ansi", &config).ok().unwrap();
    assert!(report.converged);
    assert!(report.diagnostics.is_empty());
    assert_eq!(report.tree.raw(), report.text);
    report.text
}

fn al06_rules() -> Vec<ErasedRule> {
    vec![RuleAL06::default().erased()]
}

fn al09_rules() -> Vec<ErasedRule> {
    vec![RuleAL09::default().erased()]
}

fn am02_rules() -> Vec<ErasedRule> {
    vec![RuleAM02::default().erased()]
}

fn cv05_rules() -> Vec<ErasedRule> {
    vec![RuleCV05::default().erased()]
}

fn lt09_rules() -> Vec<ErasedRule> {
    vec![RuleLT09::default().erased()]
}

fn st08_rules() -> Vec<ErasedRule> {
    vec![RuleST08::default().erased()]
}

#[test]
fn test_fail_alias_too_short() {
    let fail_str = r#"
        SELECT u.id, c.first_name, c.last_name,
            COUNT(o.user_id)
                FROM users AS u
                    JOIN customers AS c ON u.id = c.user_id
                    JOIN orders AS o ON u.id = o.user_id"#;

    let violations = lint_sql(fail_str, "ansi", al06_rules());
    assert_eq!(violations.len(), 0);
}

#[test]
fn test_pass_no_config() {
    let sql = r#"
        SELECT x.a, x_2.b
            FROM x 
            LEFT JOIN x AS x_2 ON x.foreign_key = x.foreign_key"#;

    let violations = lint_sql(sql, "ansi", al06_rules());
    assert_eq!(violations.len(), 0);
}

#[test]
fn test_pass_no_alias() {
    let sql = r#"SELECT col_a, col_b FROM foo"#;
    let violations = lint_sql(sql, "ansi", al09_rules());
    assert_eq!(violations.len(), 0);
}

#[test]
fn test_pass_no_self_alias() {
    let sql = "SELECT col_a, col_b AS new_col_b FROM foo";
    let violations = lint_sql(sql, "ansi", al09_rules());
    assert_eq!(violations.len(), 0);
}

#[test]
fn test_pass_no_self_alias_function() {
    let sql = r#"SELECT max(sum) AS max_sum FROM foo"#;
    let violations = lint_sql(sql, "ansi", al09_rules());
    assert_eq!(violations.len(), 0);
}

#[test]
fn test_fail_self_alias() {
    let fail_str = "SELECT col_a AS col_a, col_b AS new_col_b FROM foo";
    let fix_str = "SELECT col_a, col_b AS new_col_b FROM foo";

    let result = fix_sql(fail_str, al09_rules());
    assert_eq!(fix_str, result);
}

#[test]
fn test_fail_self_alias_quoted() {
    let fail_str = r#"SELECT "col_a" AS "col_a", col_b AS new_col_b FROM foo"#;
    let fix_str = r#"SELECT "col_a", col_b AS new_col_b FROM foo"#;

    let result = fix_sql(fail_str, al09_rules());
    assert_eq!(fix_str, result);
}

#[test]
fn test_pass_self_alias_case_insensitive() {
    let sql = r#"SELECT "col_a" AS col_a, col_b AS new_col_b FROM foo"#;
    let violations = lint_sql(sql, "ansi", al09_rules());
    assert_eq!(violations.len(), 0);
}

#[test]
fn test_pass_self_alias_case_sensitive() {
    let sql = r#"SELECT col_a AS "col_a", col_b AS new_col_b FROM foo"#;
    let violations = lint_sql(sql, "ansi", al09_rules());
    assert_eq!(violations.len(), 0);
}

#[test]
fn test_pass_union_all() {
    let pass_str = r#"SELECT a,b 
                                FROM tbl"
                                UNION ALL"
                                SELECT c,d"
                                FROM tbl1"#;

    let violation = lint_sql(pass_str, "ansi", am02_rules());
    assert_eq!(violation.len(), 0);
}

#[test]
fn test_fail_bare_union() {
    let fail_str = r#"SELECT a,b 
                                FROM tbl"
                                UNION"
                                SELECT c,d"
                                FROM tbl1"#;

    let fix_str = r#"SELECT a,b 
                                FROM tbl"
                                UNION DISTINCT"
                                SELECT c,d"
                                FROM tbl1"#;

    let result = fix_sql(fail_str, am02_rules());
    assert_eq!(fix_str, result);
}

#[test]
fn test_pass_union_distinct() {
    let pass_str = r#"SELECT a,b 
                                FROM tbl"
                                UNION DISTINCT"
                                SELECT c,d"
                                FROM tbl1"#;

    let violation = lint_sql(pass_str, "ansi", am02_rules());
    assert_eq!(violation.len(), 0);
}

#[test]
fn test_pass_union_distinct_with_comment() {
    let pass_str = r#"SELECT a,b 
                                FROM tbl"
                                --selecting a and b"
                                UNION DISTINCT"
                                SELECT c,d"
                                FROM tbl1"#;

    let violation = lint_sql(pass_str, "ansi", am02_rules());
    assert_eq!(violation.len(), 0);
}

#[test]
fn test_postgres() {
    let pass_str = r#"select a,b 
                                from tbl1"
                                union select c,d"
                                from tbl2"#;

    let violation = lint_sql(pass_str, "postgres", am02_rules());
    assert_eq!(violation.len(), 0);
}

#[test]
fn test_is_null() {
    let pass_str = r#"SELECT a 
                                FROM foo
                                WHERE a IS NULL"#;

    let violations = lint_sql(pass_str, "ansi", cv05_rules());
    assert_eq!(violations.len(), 0);
}

#[test]
fn test_is_not_null() {
    let pass_str = r#"SELECT a 
        FROM foo
        WHERE a IS NOT NULL"#;

    let violations = lint_sql(pass_str, "ansi", cv05_rules());
    assert_eq!(violations.len(), 0);
}

#[test]
fn test_not_equals_null_multi_nulls() {
    let fail_str = r#"SELECT a 
                                FROM foo
                                WHERE a <> NULL AND b != NULL AND c = 'foo'"#;

    let fix_str = r#"SELECT a 
                                FROM foo
                                WHERE a IS NOT NULL AND b IS NOT NULL AND c = 'foo'"#;

    let result = fix_sql(fail_str, cv05_rules());
    assert_eq!(fix_str, result);
}

#[test]
fn test_equals_null_spaces() {
    let fail_str = r#"SELECT a 
                                FROM foo
                                WHERE a = NULL"#;

    let fix_str = r#"SELECT a 
                                FROM foo
                                WHERE a IS NULL"#;

    let result = fix_sql(fail_str, cv05_rules());
    assert_eq!(fix_str, result);
}

#[test]
fn test_set_clause() {
    let pass_str = r#"UPDATE table1 SET col = NULL 
                                WHERE col = """#;

    let violations = lint_sql(pass_str, "ansi", cv05_rules());
    assert_eq!(violations.len(), 0);
}

#[test]
fn test_bigquery_set_options() {
    let pass_str = r#"ALTER TABLE table
                                SET OPTIONS (expiration_timestamp = NULL);"#;

    let violations = lint_sql(pass_str, "bigquery", cv05_rules());
    assert_eq!(violations.len(), 0);
}

#[test]
fn test_tsql_exec_clause() {
    let pass_str = r#"exec something
                                @param1 = 'blah',
                                @param2 = 'blah',
                                @param3 = null,
                                @param4 = 'blah'"#;

    let violations = lint_sql(pass_str, "tsql", cv05_rules());
    assert_eq!(violations.len(), 0);
}

#[test]
fn test_tsql_alternate_alias_syntax() {
    let pass_str = r#"select name = null from t"#;

    let violations = lint_sql(pass_str, "tsql", cv05_rules());
    assert_eq!(violations.len(), 0);
}

#[test]
fn test_exclude_constraint() {
    let pass_str = r#"alter table abc add constraint xyz exclude (field WITH =);"#;

    let violations = lint_sql(pass_str, "postgres", cv05_rules());
    assert_eq!(violations.len(), 0);
}

#[test]
fn test_single_select_target_and_no_newline_between_select_and_select_target() {
    let violations = lint_sql("select a from x", "ansi", lt09_rules());
    assert_eq!(violations.len(), 0);
}

#[test]
fn test_single_wildcard_select_target_and_no_newline_between_select_and_select_target_2() {
    let violations = lint_sql("select * from x", "ansi", lt09_rules());
    assert_eq!(violations.len(), 0);
}

#[test]
fn test_single_select_target_and_newline_after_select_target_1() {
    let violations = lint_sql("select *\nfrom x", "ansi", lt09_rules());
    assert_eq!(violations.len(), 0);
}

#[test]
fn test_single_select_target_and_newline_before_select_target() {
    let fixed = fix_sql(
        "
select
    a
from x",
        lt09_rules(),
    );

    assert_eq!(
        fixed,
        "
select a
from x"
    );
}

#[test]
fn test_multiple_select_targets_on_newlines_and_newline_after_select() {
    let pass_str = "
select
    a,
    b,
    c
from x";

    let violations = lint_sql(pass_str, "ansi", lt09_rules());
    assert_eq!(violations.len(), 0);
}

#[test]
fn test_fail_distinct_with_parenthesis_1() {
    let fail_str = "SELECT DISTINCT(a)";
    let fix_str = "SELECT DISTINCT a";

    let fixed = fix_sql(fail_str, st08_rules());
    assert_eq!(fix_str, fixed);
}

#[test]
fn test_fail_distinct_with_parenthesis_2() {
    let fail_str = "SELECT DISTINCT(a + b) * c";
    let fix_str = "SELECT DISTINCT (a + b) * c";

    let fixed = fix_sql(fail_str, st08_rules());
    assert_eq!(fix_str, fixed);
}

#[test]
fn test_fail_distinct_with_parenthesis_3() {
    let fail_str = "SELECT DISTINCT (a)";
    let fix_str = "SELECT DISTINCT a";

    let fixed = fix_sql(fail_str, st08_rules());
    assert_eq!(fix_str, fixed);
}

#[test]
fn test_fail_distinct_with_parenthesis_5() {
    let fail_str = "SELECT DISTINCT (field_1)\nFROM my_table";
    let fix_str = "SELECT DISTINCT field_1\nFROM my_table";

    let fixed = fix_sql(fail_str, st08_rules());
    assert_eq!(fix_str, fixed);
}

#[test]
fn test_pass_no_distinct() {
    let violations = lint_sql("SELECT a,b", "ansi", st08_rules());
    assert_eq!(violations.len(), 0);
}

#[test]
fn test_fail_distinct_column_inside_count() {
    let fail_str = "SELECT COUNT(DISTINCT(unique_key))";
    let fix_str = "SELECT COUNT(DISTINCT unique_key)";

    let fixed = fix_sql(fail_str, st08_rules());
    assert_eq!(fix_str, fixed);
}

#[test]
fn test_equals_null_without_spaces_gets_spaces() {
    let fixed = fix_sql("SELECT a FROM foo WHERE a=NULL", cv05_rules());
    assert_eq!(fixed, "SELECT a FROM foo WHERE a IS NULL");
}

#[test]
fn test_lower_case_null_gets_lower_case_keywords() {
    let fixed = fix_sql("select a from foo where a != null", cv05_rules());
    assert_eq!(fixed, "select a from foo where a is not null");
}

#[test]
fn test_lower_case_union_gets_lower_case_distinct() {
    let fixed = fix_sql("select a from x union select b from y", am02_rules());
    assert_eq!(fixed, "select a from x union distinct select b from y");
}

#[test]
fn test_create_base_is_null_sequence() {
    let upper = create_base_is_null_sequence(true, "=".to_string());
    assert_eq!(upper.len(), 1);
    assert!(matches!(&upper[0], CorrectionListItem::KeywordSegment(k) if k == "IS"));
    let lower = create_base_is_null_sequence(false, "<>".to_string());
    assert_eq!(lower.len(), 3);
    assert!(matches!(&lower[0], CorrectionListItem::KeywordSegment(k) if k == "is"));
    assert!(matches!(&lower[1], CorrectionListItem::WhitespaceSegment));
    assert!(matches!(&lower[2], CorrectionListItem::KeywordSegment(k) if k == "not"));
}

#[test]
fn test_alias_longer_than_maximum_is_reported_once_without_fix() {
    let sql = "SELECT a FROM users AS customers_of_last_year JOIN t AS o ON a = b";
    let mut config: AHashMap<String, Value> = AHashMap::new();
    config.insert("max_alias_length".to_string(), Value::Int(10));
    let report = lint(Ok(parse(sql, "ansi")), "ansi", al06_rules(), &config).ok().unwrap();
    assert!(report.diagnostics.is_empty());
    assert_eq!(report.violations.len(), 1);
    assert_eq!(report.violations[0].rule_name, "aliasing.lenght");
    assert_eq!(
        report.violations[0].message,
        "Aliases should be no more than 'Some(10)' character(s) long."
    );
    assert_eq!(report.violations[0].position.offset, 23);
    assert_eq!(report.violations[0].position.line_no, 1);
    assert_eq!(report.violations[0].position.line_pos, 24);
    let fixed = fix(Ok(parse(sql, "ansi")), al06_rules(), "ansi", &config).ok().unwrap();
    assert_eq!(fixed.text, sql);
    assert!(fixed.converged);
    assert!(matches!(fixed.tree.root, _));
}

#[test]
fn test_fix_is_idempotent() {
    let rules = || {
        vec![
            RuleAL09::default().erased(),
            RuleAM02::default().erased(),
            RuleCV05::default().erased(),
            RuleLT09::default().erased(),
            RuleST08::default().erased(),
        ]
    };
    let sql = "select\n    a AS a\nfrom x where b = NULL union select DISTINCT(c) from y";
    let once = fix_sql(sql, rules());
    assert_eq!(once, "select a\nfrom x where b IS NULL union distinct select DISTINCT c from y");
    let twice = fix_sql(&once, rules());
    assert_eq!(once, twice);
}

#[test]
fn test_state_names() {
    assert_ne!(FixState::Converged, FixState::NonConverged);
}


#[test]
fn test_a_comment_after_select_is_reported_and_not_fixed() {
    let sql = "select -- the key\n    a\nfrom x";
    let violations = lint_sql(sql, "ansi", lt09_rules());
    assert_eq!(violations.len(), 1);
    assert_eq!(violations[0].rule_name, "layout.select_targets");
    assert_eq!(
        violations[0].message,
        "Select targets should be on a new line unless there is only one select target."
    );
    assert_eq!(violations[0].position.offset, 0);
    assert_eq!(fix_sql(sql, lt09_rules()), sql);
}

#[test]
fn test_a_target_without_indentation_moves_up() {
    assert_eq!(fix_sql("select\na\nfrom x", lt09_rules()), "select a\nfrom x");
}

#[test]
fn test_a_target_at_the_end_of_the_statement_moves_up() {
    assert_eq!(fix_sql("select\n  a", lt09_rules()), "select a  ");
}

#[test]
fn test_a_clause_followed_on_its_line_is_a_fault() {
    assert_eq!(
        faults_of("select\n  a from x", "ansi", lt09_rules()),
        vec!["layout.select_targets"]
    );
}

#[test]
fn test_a_modifier_behind_the_line_break_is_a_fault() {
    assert_eq!(
        faults_of("select\n distinct a\nfrom x", "ansi", lt09_rules()),
        vec!["layout.select_targets"]
    );
}

#[test]
fn test_several_self_aliases_go_in_one_cycle() {
    let config: AHashMap<String, Value> = AHashMap::new();
    let sql = "SELECT a AS a, b AS B, c AS d FROM t";
    let report = fix(Ok(parse(sql, "ansi")), al09_rules(), "ansi", &config).ok().unwrap();
    assert_eq!(report.text, "SELECT a, b, c AS d FROM t");
    assert!(report.converged);
    let violations = lint_sql(sql, "ansi", al09_rules());
    let columns: Vec<usize> = violations.iter().map(|v| v.position.line_pos).collect();
    assert_eq!(columns, vec![8, 16]);
}

#[test]
fn test_brackets_go_and_the_list_stays() {
    assert_eq!(fix_sql("SELECT DISTINCT(a), b", st08_rules()), "SELECT DISTINCT a, b");
    assert_eq!(fix_sql("SELECT DISTINCT  (a)", st08_rules()), "SELECT DISTINCT a");
    assert_eq!(fix_sql("SELECT DISTINCT a", st08_rules()), "SELECT DISTINCT a");
    assert_eq!(fix_sql("SELECT (a)", st08_rules()), "SELECT (a)");
}

#[test]
fn test_comparisons_with_other_operands_stay() {
    let sql = "SELECT a FROM foo WHERE a = 1 AND b > NULL AND c <= NULL AND NULL = d";
    assert_eq!(lint_sql(sql, "ansi", cv05_rules()).len(), 0);
    assert_eq!(fix_sql(sql, cv05_rules()), sql);
}

#[test]
fn test_all_rules_leave_clean_input_alone() {
    let rules = || {
        vec![
            RuleAL06::default().erased(),
            RuleAL09::default().erased(),
            RuleAM02::default().erased(),
            RuleCV05::default().erased(),
            RuleLT09::default().erased(),
            RuleST08::default().erased(),
        ]
    };
    let sql = "SELECT col_a, col_b AS new_col_b FROM foo WHERE a IS NULL UNION ALL SELECT DISTINCT c, d FROM t";
    assert_eq!(lint_sql(sql, "ansi", rules()).len(), 0);
    assert_eq!(fix_sql(sql, rules()), sql);
}

#[test]
fn test_self_alias_goes_with_its_whitespace() {
    assert_eq!(
        fix_sql("SELECT col_a AS col_a, col_b AS new_col_b FROM foo", al09_rules()),
        "SELECT col_a, col_b AS new_col_b FROM foo"
    );
}

#[test]
fn test_bare_union_becomes_union_distinct() {
    assert_eq!(
        fix_sql("SELECT a,b FROM tbl UNION SELECT c,d FROM tbl1", am02_rules()),
        "SELECT a,b FROM tbl UNION DISTINCT SELECT c,d FROM tbl1"
    );
    let qualified = "SELECT a,b FROM tbl UNION ALL SELECT c,d FROM tbl1";
    assert_eq!(lint_sql(qualified, "ansi", am02_rules()).len(), 0);
    let qualified = "SELECT a,b FROM tbl UNION DISTINCT SELECT c,d FROM tbl1";
    assert_eq!(lint_sql(qualified, "ansi", am02_rules()).len(), 0);
}

#[test]
fn test_comparison_with_null_becomes_is_null() {
    assert_eq!(fix_sql("SELECT a FROM t WHERE a = NULL", cv05_rules()), "SELECT a FROM t WHERE a IS NULL");
    assert_eq!(
        fix_sql("SELECT a FROM t WHERE a <> NULL", cv05_rules()),
        "SELECT a FROM t WHERE a IS NOT NULL"
    );
    let assignment = "UPDATE t SET col = NULL";
    assert_eq!(lint_sql(assignment, "ansi", cv05_rules()).len(), 0);
    assert_eq!(fix_sql(assignment, cv05_rules()), assignment);
}
