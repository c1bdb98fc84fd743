//! Structural rules: ast-grep patterns per language, checked when a rule
//! set is loaded and matched against each indexed file. Findings come out
//! ordered by rule id, then start line, then end line.
use vstd::prelude::*;
use crate::model::{content_hash, FileId, Finding, MallardError};
use crate::order::{key_view, positions_view, sorted_positions, KeyPart, PartV};
use crate::syntax::SourceLang;
use crate::text::{chars_of, copy_string, debug_quoted, debug_str, push_str, utf8_str};
use ast_grep_language::LanguageExt;
use std::str::FromStr;

verus! {

/// The code of a character after ASCII case folding.
pub open spec fn ascii_fold(c: char) -> int {
    if 'A' <= c && c <= 'Z' { (c as u32) + 32 } else { c as u32 as int }
}

/// Equal up to ASCII case (what `str::eq_ignore_ascii_case` decides).
pub open spec fn eq_ignore_ascii_case(a: Seq<char>, b: Seq<char>) -> bool {
    a.len() == b.len() && forall|i: int| 0 <= i < a.len() ==> ascii_fold(#[trigger] a[i]) == ascii_fold(b[i])
}

/// Whether a name is one of the aliases, ignoring ASCII case.
pub open spec fn alias_of(name: Seq<char>, aliases: Seq<Seq<char>>) -> bool {
    exists|i: int| 0 <= i < aliases.len() && eq_ignore_ascii_case(name, #[trigger] aliases[i])
}

/// The language ast-grep's `SupportLang` parses a name as, by its place
/// in the declaration of `SupportLang` (Bash first, Zig last), through
/// each language's aliases in any ASCII case.
pub open spec fn support_lang_code(name: Seq<char>) -> Option<u8> {
    if alias_of(name, seq!["bash"@]) { Some(0) }
    else if alias_of(name, seq!["c"@]) { Some(1) }
    else if alias_of(name, seq!["cc"@, "c++"@, "cpp"@, "cxx"@]) { Some(2) }
    else if alias_of(name, seq!["cs"@, "csharp"@]) { Some(3) }
    else if alias_of(name, seq!["css"@]) { Some(4) }
    else if alias_of(name, seq!["dart"@]) { Some(5) }
    else if alias_of(name, seq!["go"@, "golang"@]) { Some(6) }
    else if alias_of(name, seq!["ex"@, "elixir"@]) { Some(7) }
    else if alias_of(name, seq!["hs"@, "haskell"@]) { Some(8) }
    else if alias_of(name, seq!["hcl"@]) { Some(9) }
    else if alias_of(name, seq!["html"@]) { Some(10) }
    else if alias_of(name, seq!["java"@]) { Some(11) }
    else if alias_of(name, seq!["javascript"@, "js"@, "jsx"@]) { Some(12) }
    else if alias_of(name, seq!["json"@]) { Some(13) }
    else if alias_of(name, seq!["kotlin"@, "kt"@]) { Some(14) }
    else if alias_of(name, seq!["lua"@]) { Some(15) }
    else if alias_of(name, seq!["markdown"@, "md"@]) { Some(16) }
    else if alias_of(name, seq!["nix"@]) { Some(17) }
    else if alias_of(name, seq!["php"@]) { Some(18) }
    else if alias_of(name, seq!["py"@, "python"@]) { Some(19) }
    else if alias_of(name, seq!["rb"@, "ruby"@]) { Some(20) }
    else if alias_of(name, seq!["rs"@, "rust"@]) { Some(21) }
    else if alias_of(name, seq!["scala"@]) { Some(22) }
    else if alias_of(name, seq!["sol"@, "solidity"@]) { Some(23) }
    else if alias_of(name, seq!["swift"@]) { Some(24) }
    else if alias_of(name, seq!["tsx"@]) { Some(25) }
    else if alias_of(name, seq!["ts"@, "typescript"@]) { Some(26) }
    else if alias_of(name, seq!["yaml"@, "yml"@]) { Some(27) }
    else if alias_of(name, seq!["zig"@]) { Some(28) }
    else { None }
}

/// The grammar built into this library for an ast-grep language: Python,
/// Rust, TSX and TypeScript have one; the others none.
pub open spec fn grammar_of(code: u8) -> Option<SourceLang> {
    if code == 19 { Some(SourceLang::Python) }
    else if code == 21 { Some(SourceLang::Rust) }
    else if code == 25 { Some(SourceLang::Tsx) }
    else if code == 26 { Some(SourceLang::TypeScript) }
    else { None }
}

/// The built-in grammar a language name names: `rs` / `rust`, `py` /
/// `python`, `ts` / `typescript`, `tsx`, in any ASCII case.
pub open spec fn language_for_name(name: Seq<char>) -> Option<SourceLang> {
    match support_lang_code(name) {
        Some(c) => grammar_of(c),
        None => None,
    }
}

/// `ast_grep_language::SupportLang::from_str`: the language whose alias
/// list holds the name, compared ignoring ASCII case, as its place in the
/// declaration of `SupportLang`; none for a name no language has.
#[verifier::external_body]
fn language_code(name: &str) -> (r: Option<u8>)
    ensures
        r == support_lang_code(name@),
{
    match ast_grep_language::SupportLang::from_str(name) {
        Ok(l) => Some(l as u8),
        Err(_) => None,
    }
}

/// The built-in grammar a language name names, if any.
pub(crate) fn language_named(name: &str) -> (r: Option<SourceLang>)
    ensures
        r == language_for_name(name@),
{
    match language_code(name) {
        Some(19) => Some(SourceLang::Python),
        Some(21) => Some(SourceLang::Rust),
        Some(25) => Some(SourceLang::Tsx),
        Some(26) => Some(SourceLang::TypeScript),
        _ => None,
    }
}

/// Whether ast-grep accepts a pattern in a language.
pub uninterp spec fn pattern_compiles(pattern: Seq<char>, lang: u8) -> bool;

/// ast-grep's message for a pattern it refuses.
pub uninterp spec fn pattern_error_text(pattern: Seq<char>, lang: u8) -> Seq<char>;

/// `ast_grep_core::Pattern::try_new` in the language a name parses as:
/// none when the pattern compiles, otherwise the refusal's message; both
/// functions of the pattern and the language alone.
#[verifier::external_body]
fn pattern_error(pattern: &str, lang: &str) -> (r: Option<String>)
    requires
        support_lang_code(lang@).is_some(),
    ensures
        r.is_none() == pattern_compiles(pattern@, support_lang_code(lang@).unwrap()),
        r.is_some() ==> r.unwrap()@ == pattern_error_text(pattern@, support_lang_code(lang@).unwrap()),
{
    let l = ast_grep_language::SupportLang::from_str(lang).unwrap();
    match ast_grep_core::Pattern::try_new(pattern, l) {
        Ok(_) => None,
        Err(e) => Some(e.to_string()),
    }
}

/// The (start line, end line) of every match of a pattern in a text, in
/// the order ast-grep finds them.
pub uninterp spec fn pattern_lines(text: Seq<char>, lang: u8, pattern: Seq<char>) -> Seq<(usize, usize)>;

/// ast-grep `find_all` of a compiled pattern over the text parsed in the
/// language a name parses as: the 0-based start and end lines of each
/// match; a function of the text, the language and the pattern.
#[verifier::external_body]
fn find_pattern_lines(text: &str, lang: &str, pattern: &str) -> (r: Vec<(usize, usize)>)
    requires
        support_lang_code(lang@).is_some(),
    ensures
        r@ == pattern_lines(text@, support_lang_code(lang@).unwrap(), pattern@),
{
    let l = ast_grep_language::SupportLang::from_str(lang).unwrap();
    match ast_grep_core::Pattern::try_new(pattern, l) {
        Ok(p) => l.ast_grep(text).root().find_all(&p).map(|m| (m.start_pos().line(), m.end_pos().line())).collect(),
        Err(_) => Vec::new(),
    }
}

/// One rule as written in a rule file.
#[derive(Debug, Clone, PartialEq, Eq)]
pub struct RuleDef {
    pub id: String,
    pub language: String,
    pub pattern: String,
    pub message: String,
    pub severity: Option<String>,
}

/// A rule whose language and pattern were accepted.
#[derive(Debug, Clone)]
pub struct CompiledRule {
    pub id: String,
    /// The rule's ast-grep language, by its place in `SupportLang`.
    pub language: u8,
    pub pattern: String,
    pub message: String,
}

/// A checked rule set, with the hash of the file it was read from.
#[derive(Debug, Clone)]
pub struct RuleSet {
    pub rules: Vec<CompiledRule>,
    pub source_hash: Option<String>,
}

/// A compiled rule, as text.
pub type RuleV = (Seq<char>, u8, Seq<char>, Seq<char>);

pub open spec fn rule_view(r: CompiledRule) -> RuleV {
    (r.id@, r.language, r.pattern@, r.message@)
}

pub open spec fn rule_views(v: Seq<CompiledRule>) -> Seq<RuleV> {
    v.map_values(|r: CompiledRule| rule_view(r))
}

/// A rule's check: its language must be known and its pattern accepted.
pub open spec fn check_rule(d: RuleDef) -> Result<RuleV, Seq<char>> {
    match support_lang_code(d.language@) {
        None => Err("rule "@ + debug_quoted(d.id@) + ": unknown language "@ + debug_quoted(d.language@)),
        Some(l) => if !pattern_compiles(d.pattern@, l) {
            Err("rule "@ + debug_quoted(d.id@) + ": invalid pattern: "@ + pattern_error_text(d.pattern@, l))
        } else {
            Ok((d.id@, l, d.pattern@, d.message@))
        },
    }
}

/// The rules of a rule file in order, or the first rule's refusal.
pub open spec fn load_rules(defs: Seq<RuleDef>) -> Result<Seq<RuleV>, Seq<char>>
    decreases defs.len(),
{
    if defs.len() == 0 {
        Ok(seq![])
    } else {
        match load_rules(defs.drop_last()) {
            Err(e) => Err(e),
            Ok(rs) => match check_rule(defs.last()) {
                Err(e) => Err(e),
                Ok(r) => Ok(rs.push(r)),
            },
        }
    }
}

/// A finding, as text: rule id, file, start line, end line, message.
pub type FindingV = (Seq<char>, FileId, u32, u32, Seq<char>);

pub open spec fn finding_view(f: Finding) -> FindingV {
    (f.rule_id@, f.file_id, f.start_line, f.end_line, f.message@)
}

pub open spec fn finding_views(v: Seq<Finding>) -> Seq<FindingV> {
    v.map_values(|f: Finding| finding_view(f))
}

/// Findings of one rule, in match order.
pub open spec fn rule_findings(r: RuleV, text: Seq<char>, fid: FileId) -> Seq<FindingV> {
    pattern_lines(text, r.1, r.2).map_values(|m: (usize, usize)| (r.0, fid, m.0 as u32, m.1 as u32, r.3))
}

/// Findings of the rules of one language, rule by rule.
pub open spec fn language_findings(rules: Seq<RuleV>, lang: u8, text: Seq<char>, fid: FileId) -> Seq<FindingV>
    decreases rules.len(),
{
    if rules.len() == 0 {
        seq![]
    } else {
        language_findings(rules.drop_last(), lang, text, fid)
            + if rules.last().1 == lang { rule_findings(rules.last(), text, fid) } else { seq![] }
    }
}

pub open spec fn finding_keys(fs: Seq<FindingV>) -> Seq<Seq<PartV>> {
    Seq::new(fs.len(), |i: int| seq![PartV::Text(fs[i].0), PartV::Num(fs[i].2 as int), PartV::Num(fs[i].3 as int)])
}

/// Findings by rule id, start line, end line; ties keep their order.
pub open spec fn sorted_findings(fs: Seq<FindingV>) -> Seq<FindingV> {
    sorted_positions(finding_keys(fs), |i: int| true).map_values(|p: int| fs[p])
}

/// What running the rules over a file gives: nothing for an unknown
/// language or bytes that are not UTF-8; otherwise the sorted findings of
/// that language's rules.
pub open spec fn run_rules(rules: Seq<RuleV>, fid: FileId, source: Seq<u8>, language: Seq<char>) -> Seq<FindingV> {
    match support_lang_code(language) {
        None => seq![],
        Some(l) => if !vstd::utf8::valid_utf8(source) {
            seq![]
        } else {
            sorted_findings(language_findings(rules, l, vstd::utf8::decode_utf8(source), fid))
        },
    }
}

fn check_rule_exec(d: &RuleDef) -> (r: Result<CompiledRule, String>)
    ensures
        match check_rule(*d) {
            Ok(v) => r.is_ok() && rule_view(r.unwrap()) == v,
            Err(m) => r.is_err() && r.unwrap_err()@ == m,
        },
{
    let lang = match language_code(d.language.as_str()) {
        Some(l) => l,
        None => {
            let mut m = String::new();
            push_str(&mut m, "rule ");
            let q = debug_str(d.id.as_str());
            push_str(&mut m, q.as_str());
            push_str(&mut m, ": unknown language ");
            let ql = debug_str(d.language.as_str());
            push_str(&mut m, ql.as_str());
            return Err(m);
        },
    };
    match pattern_error(d.pattern.as_str(), d.language.as_str()) {
        Some(e) => {
            let mut m = String::new();
            push_str(&mut m, "rule ");
            let q = debug_str(d.id.as_str());
            push_str(&mut m, q.as_str());
            push_str(&mut m, ": invalid pattern: ");
            push_str(&mut m, e.as_str());
            Err(m)
        },
        None => Ok(CompiledRule {
            id: copy_string(&d.id),
            language: lang,
            pattern: copy_string(&d.pattern),
            message: copy_string(&d.message),
        }),
    }
}

impl RuleSet {
    /// No rules, no hash.
    pub fn empty() -> (r: RuleSet)
        ensures
            r.rules@.len() == 0,
            r.source_hash.is_none(),
    {
        RuleSet { rules: Vec::new(), source_hash: None }
    }

    /// Checks the rules of a rule file, in order: each names a known
    /// language and a pattern ast-grep accepts, else the first refusal is
    /// the error. The set records the hash of the file's bytes.
    pub fn load(defs: &Vec<RuleDef>, source: &[u8]) -> (r: Result<RuleSet, MallardError>)
        ensures
            match load_rules(defs@) {
                Ok(rs) => r.is_ok() && rule_views(r.unwrap().rules@) == rs
                    && r.unwrap().source_hash.is_some()
                    && r.unwrap().source_hash.unwrap()@ == crate::model::blake3_hex_digest(source@).take(32),
                Err(m) => r.is_err() && (r.unwrap_err() matches MallardError::Other(s) && s@ == m),
            },
    {
        let mut rules: Vec<CompiledRule> = Vec::new();
        let mut i: usize = 0;
        assert(defs@.take(0) =~= Seq::<RuleDef>::empty());
        assert(rule_views(rules@) =~= Seq::<RuleV>::empty());
        while i < defs.len()
            invariant
                i <= defs@.len(),
                load_rules(defs@.take(i as int)) == Ok::<Seq<RuleV>, Seq<char>>(rule_views(rules@)),
            decreases defs.len() - i,
        {
            assert(defs@.take(i + 1).drop_last() =~= defs@.take(i as int));
            assert(defs@.take(i + 1).last() == defs@[i as int]);
            match check_rule_exec(&defs[i]) {
                Ok(c) => {
                    let ghost before = rule_views(rules@);
                    let ghost cv = rule_view(c);
                    rules.push(c);
                    assert(rule_views(rules@) =~= before.push(cv));
                },
                Err(m) => {
                    proof {
                        lemma_load_error_sticks(defs@, i as int + 1);
                    }
                    return Err(MallardError::Other(m));
                },
            }
            i = i + 1;
        }
        assert(defs@.take(defs@.len() as int) =~= defs@);
        Ok(RuleSet { rules, source_hash: Some(content_hash(source)) })
    }

    /// Findings of the rules of `language` in a file, sorted by rule id,
    /// start line and end line; none when the language is unknown or the
    /// bytes are not UTF-8.
    pub fn run(&self, file_id: FileId, source: &[u8], language: &str) -> (r: Vec<Finding>)
        ensures
            finding_views(r@) == run_rules(rule_views(self.rules@), file_id, source@, language@),
    {
        let lang = match language_code(language) {
            Some(l) => l,
            None => return Vec::new(),
        };
        let text = match utf8_str(source) {
            Some(t) => t,
            None => return Vec::new(),
        };
        let ghost rv = rule_views(self.rules@);
        let mut found: Vec<Finding> = Vec::new();
        let mut i: usize = 0;
        while i < self.rules.len()
            invariant
                i <= self.rules@.len(),
                rv == rule_views(self.rules@),
                support_lang_code(language@) == Some(lang),
                finding_views(found@) == language_findings(rv.take(i as int), lang, text@, file_id),
            decreases self.rules.len() - i,
        {
            let rule = &self.rules[i];
            assert(rv.take(i + 1).drop_last() =~= rv.take(i as int));
            assert(rv.take(i + 1).last() == rule_view(*rule));
            if rule.language == lang {
                let lines = find_pattern_lines(text.as_str(), language, rule.pattern.as_str());
                let ghost base = finding_views(found@);
                let mut k: usize = 0;
                while k < lines.len()
                    invariant
                        k <= lines@.len(),
                        finding_views(found@) == base + rule_findings(rule_view(*rule), text@, file_id).take(k as int),
                        lines@ == pattern_lines(text@, lang, rule.pattern@),
                        rule.language == lang,
                    decreases lines.len() - k,
                {
                    let (s, e) = lines[k];
                    let f = Finding {
                        rule_id: copy_string(&rule.id),
                        file_id: file_id,
                        start_line: #[verifier::truncate] (s as u32),
                        end_line: #[verifier::truncate] (e as u32),
                        message: copy_string(&rule.message),
                    };
                    let ghost fv = finding_view(f);
                    assert(fv == rule_findings(rule_view(*rule), text@, file_id)[k as int]);
                    let ghost prior = found@;
                    found.push(f);
                    assert(finding_views(found@) =~= finding_views(prior).push(fv));
                    assert(rule_findings(rule_view(*rule), text@, file_id).take(k + 1)
                        =~= rule_findings(rule_view(*rule), text@, file_id).take(k as int).push(fv));
                    k = k + 1;
                    assert(finding_views(found@) =~= base + rule_findings(rule_view(*rule), text@, file_id).take(k as int));
                }
                assert(rule_findings(rule_view(*rule), text@, file_id).take(lines@.len() as int) =~= rule_findings(rule_view(*rule), text@, file_id));
            } else {
                assert(finding_views(found@) =~= finding_views(found@) + seq![]);
            }
            i = i + 1;
        }
        assert(rv.take(self.rules@.len() as int) =~= rv);
        sort_findings(&found)
    }
}

proof fn lemma_load_error_sticks(defs: Seq<RuleDef>, n: int)
    requires
        0 < n <= defs.len(),
        load_rules(defs.take(n)).is_err(),
    ensures
        load_rules(defs) == load_rules(defs.take(n)),
    decreases defs.len() - n,
{
    if n < defs.len() {
        assert(defs.take(n + 1).drop_last() =~= defs.take(n));
        lemma_load_error_sticks(defs, n + 1);
    } else {
        assert(defs.take(n) =~= defs);
    }
}

fn sort_findings(fs: &Vec<Finding>) -> (r: Vec<Finding>)
    ensures
        finding_views(r@) == sorted_findings(finding_views(fs@)),
{
    let ghost fv = finding_views(fs@);
    let mut hits: Vec<bool> = Vec::new();
    let mut keys: Vec<Vec<KeyPart>> = Vec::new();
    let mut i: usize = 0;
    while i < fs.len()
        invariant
            i <= fs@.len(),
            fv == finding_views(fs@),
            hits@.len() == i,
            keys@.len() == i,
            forall|j: int| 0 <= j < i ==> #[trigger] hits@[j] == (|k: int| true)(j),
            forall|j: int| 0 <= j < i ==> key_view(#[trigger] keys@[j]) == finding_keys(fv)[j],
        decreases fs.len() - i,
    {
        let mut key: Vec<KeyPart> = Vec::new();
        key.push(KeyPart::Text(chars_of(fs[i].rule_id.as_str())));
        key.push(KeyPart::Num(fs[i].start_line as u128));
        key.push(KeyPart::Num(fs[i].end_line as u128));
        assert(key_view(key) =~= finding_keys(fv)[i as int]);
        hits.push(true);
        keys.push(key);
        i = i + 1;
    }
    let order = crate::order::select_sorted(&hits, &keys, Ghost(finding_keys(fv)), Ghost(|k: int| true));
    let ghost pv = positions_view(order@);
    let mut out: Vec<Finding> = Vec::new();
    let mut a: usize = 0;
    while a < order.len()
        invariant
            a <= order@.len(),
            fv == finding_views(fs@),
            pv == positions_view(order@),
            crate::order::sorted_selection(finding_keys(fv), |k: int| true, pv),
            pv == sorted_positions(finding_keys(fv), |k: int| true),
            finding_views(out@) == pv.take(a as int).map_values(|p: int| fv[p]),
        decreases order.len() - a,
    {
        assert(pv[a as int] == order@[a as int] as int);
        assert(0 <= pv[a as int] < finding_keys(fv).len());
        let src = &fs[order[a]];
        let f = Finding {
            rule_id: copy_string(&src.rule_id),
            file_id: src.file_id,
            start_line: src.start_line,
            end_line: src.end_line,
            message: copy_string(&src.message),
        };
        let ghost before = out@;
        out.push(f);
        assert(finding_views(out@) =~= finding_views(before).push(fv[pv[a as int]]));
        assert(pv.take(a + 1) =~= pv.take(a as int).push(pv[a as int]));
        a = a + 1;
    }
    assert(pv.take(order@.len() as int) =~= pv);
    out
}


/// The findings of a file come ordered by rule id, then start line, then
/// end line, each finding of the rules exactly once.
pub proof fn law_findings_ordered(fs: Seq<FindingV>)
    ensures
        sorted_findings(fs).len() == fs.len(),
        forall|a: int, b: int| 0 <= a < b < sorted_findings(fs).len()
            ==> !crate::order::key_lt(finding_keys(sorted_findings(fs))[b], finding_keys(sorted_findings(fs))[a]),
{
    let keys = finding_keys(fs);
    crate::order::lemma_sorted_positions_sorted(keys, |i: int| true);
    let pos = sorted_positions(keys, |i: int| true);
    crate::order::lemma_permutation_len(keys, pos);
    let out = sorted_findings(fs);
    assert forall|a: int, b: int| 0 <= a < b < out.len()
        implies !crate::order::key_lt(finding_keys(out)[b], finding_keys(out)[a]) by {
        assert(crate::order::sorts_before(keys, pos[a], pos[b]));
        assert(finding_keys(out)[a] == keys[pos[a]]);
        assert(finding_keys(out)[b] == keys[pos[b]]);
        crate::order::lemma_key_lt_asym_pub(keys[pos[a]], keys[pos[b]]);
    }
}

} // verus!
