//! Pipeline stages: each a transformation of a theory that may fail, run in
//! order by a [`Pipeline`], with a shared context that collects diagnostics
//! and metadata.

use vstd::prelude::*;
use crate::error::{SpindleError, validation_message};
use crate::literal::{Literal, spl_text};
use crate::pipeline::{active_rules, kept_sups, filter_temporal, validate_wildcards, validate_range_restriction, head_has_wild, range_restricted, unsafe_var, wildcard_message, unsafe_message, rules_have_vars, theory_has};
use crate::rule::{Rule, same_rules};
use crate::temporal::TimePoint;
use crate::text::{decimal, push_decimal, joined, string_views, join};
use crate::theory::Theory;
use crate::wildcard::{rewrite_wildcards, rules_rewritten, rules_wilds};
use crate::bridge::{TemporalBridge, bridged, bridge_message};

verus! {

/// How serious a diagnostic is.
#[derive(Debug, Clone, Copy, PartialEq, Eq, Structural)]
pub enum Severity {
    /// Information (such as "validation passed").
    Info,
    /// A problem that did not stop the stage.
    Warning,
    /// An error collected for later reporting.
    Error,
}

impl Severity {
    /// The display text: `INFO`, `WARN` or `ERROR`.
    pub fn to_text(&self) -> (r: String)
        ensures
            r@ == match *self {
                Severity::Info => "INFO"@,
                Severity::Warning => "WARN"@,
                Severity::Error => "ERROR"@,
            },
    {
        match self {
            Severity::Info => String::from_str("INFO"),
            Severity::Warning => String::from_str("WARN"),
            Severity::Error => String::from_str("ERROR"),
        }
    }
}

/// A message from a stage.
#[derive(Debug, Clone)]
pub struct Diagnostic {
    /// How serious it is.
    pub severity: Severity,
    /// The name of the stage that produced it.
    pub stage: &'static str,
    /// The message.
    pub message: String,
}

/// A metadata value that a stage records in the context.
#[derive(Debug, Clone)]
pub enum MetadataVal {
    /// A flag.
    Bool(bool),
    /// A count.
    Usize(usize),
    /// A text.
    String(String),
    /// A time point.
    TimePoint(TimePoint),
}

/// What the stages of a run share: the diagnostics, in the order given, and
/// the metadata, one entry per key in the order first set.
#[derive(Debug)]
pub struct PipelineContext {
    /// The diagnostics.
    pub diagnostics: Vec<Diagnostic>,
    /// The metadata entries.
    pub metadata: Vec<(String, MetadataVal)>,
}

/// The position of the first entry with key `k` among the first `n`.
pub open spec fn key_pos(m: Seq<(String, MetadataVal)>, k: Seq<char>, n: nat) -> Option<int>
    decreases n,
{
    if n == 0 {
        None
    } else {
        match key_pos(m, k, (n - 1) as nat) {
            Some(i) => Some(i),
            None => if m[n - 1].0@ == k {
                Some(n - 1)
            } else {
                None
            },
        }
    }
}

/// Setting key `k` leaves `m2` from `m`: the first entry with that key gets
/// the value, or a new entry is appended when there is none.
pub open spec fn meta_set(m: Seq<(String, MetadataVal)>, m2: Seq<(String, MetadataVal)>, k: Seq<char>, v: MetadataVal) -> bool {
    match key_pos(m, k, m.len()) {
        Some(i) => m2.len() == m.len() && m2[i].0@ == k && m2[i].1 == v && forall|j: int|
            0 <= j < m.len() && j != i ==> #[trigger] m2[j] == m[j],
        None => m2.len() == m.len() + 1 && m2[m.len() as int].0@ == k && m2[m.len() as int].1 == v && forall|j: int|
            0 <= j < m.len() ==> #[trigger] m2[j] == m[j],
    }
}

/// `key_pos` finds the first entry with the key.
proof fn lemma_key_pos(m: Seq<(String, MetadataVal)>, k: Seq<char>, n: nat)
    requires
        n <= m.len(),
    ensures
        match key_pos(m, k, n) {
            Some(i) => 0 <= i < n && m[i].0@ == k && forall|j: int| 0 <= j < i ==> (#[trigger] m[j]).0@ != k,
            None => forall|j: int| 0 <= j < n ==> (#[trigger] m[j]).0@ != k,
        },
    decreases n,
{
    if n > 0 {
        lemma_key_pos(m, k, (n - 1) as nat);
    }
}

impl PipelineContext {
    /// An empty context.
    pub fn new() -> (r: Self)
        ensures
            r.diagnostics@.len() == 0,
            r.metadata@.len() == 0,
    {
        PipelineContext { diagnostics: Vec::new(), metadata: Vec::new() }
    }

    /// Record `v` under key `k`, replacing an earlier value.
    pub fn set_metadata(&mut self, k: &str, v: MetadataVal)
        ensures
            final(self).diagnostics@ == old(self).diagnostics@,
            meta_set(old(self).metadata@, final(self).metadata@, k@, v),
    {
        let mut i: usize = 0;
        while i < self.metadata.len()
            invariant
                0 <= i <= self.metadata@.len(),
                self.metadata@ == old(self).metadata@,
                self.diagnostics@ == old(self).diagnostics@,
                forall|j: int| 0 <= j < i ==> (#[trigger] self.metadata@[j]).0@ != k@,
            decreases self.metadata@.len() - i,
        {
            if crate::text::str_eq(self.metadata[i].0.as_str(), k) {
                proof {
                    lemma_key_pos(self.metadata@, k@, self.metadata@.len());
                }
                self.metadata.set(i, (String::from_str(k), v));
                return;
            }
            i = i + 1;
        }
        proof {
            lemma_key_pos(self.metadata@, k@, self.metadata@.len());
        }
        self.metadata.push((String::from_str(k), v));
    }

    /// The value recorded under key `k`, if any.
    pub fn get_metadata(&self, k: &str) -> (r: Option<&MetadataVal>)
        ensures
            match key_pos(self.metadata@, k@, self.metadata@.len()) {
                Some(i) => r == Some(&self.metadata@[i].1),
                None => r is None,
            },
    {
        let mut i: usize = 0;
        while i < self.metadata.len()
            invariant
                0 <= i <= self.metadata@.len(),
                forall|j: int| 0 <= j < i ==> (#[trigger] self.metadata@[j]).0@ != k@,
            decreases self.metadata@.len() - i,
        {
            if crate::text::str_eq(self.metadata[i].0.as_str(), k) {
                proof {
                    lemma_key_pos(self.metadata@, k@, self.metadata@.len());
                }
                return Some(&self.metadata[i].1);
            }
            i = i + 1;
        }
        proof {
            lemma_key_pos(self.metadata@, k@, self.metadata@.len());
        }
        None
    }
}

impl Default for PipelineContext {
    fn default() -> (r: Self)
        ensures
            r.diagnostics@.len() == 0,
            r.metadata@.len() == 0,
    {
        PipelineContext::new()
    }
}

/// A transformation of a theory, run as one step of a [`Pipeline`].
pub trait PipelineStage {
    /// The stage's name, used in diagnostics.
    fn name(&self) -> &'static str;

    /// Apply the stage; an error stops the pipeline.
    fn apply(&self, theory: Theory, ctx: &mut PipelineContext) -> Result<Theory, SpindleError>;
}

/// `d` is a diagnostic of the given severity, stage and message.
pub open spec fn is_diag(d: Diagnostic, sev: Severity, stage: Seq<char>, msg: Seq<char>) -> bool {
    d.severity == sev && d.stage@ == stage && d.message@ == msg
}

/// `after` is `before` with one diagnostic appended.
pub open spec fn diag_pushed(before: Seq<Diagnostic>, after: Seq<Diagnostic>, sev: Severity, stage: Seq<char>, msg: Seq<char>) -> bool {
    after.len() == before.len() + 1 && after.take(before.len() as int) == before && is_diag(after.last(), sev, stage, msg)
}

/// Append a diagnostic to the context.
pub(crate) fn push_diag(ctx: &mut PipelineContext, severity: Severity, stage: &'static str, message: String)
    ensures
        diag_pushed(old(ctx).diagnostics@, final(ctx).diagnostics@, severity, stage@, message@),
        final(ctx).metadata@ == old(ctx).metadata@,
{
    ctx.diagnostics.push(Diagnostic { severity, stage, message });
    proof {
        assert(ctx.diagnostics@.take(old(ctx).diagnostics@.len() as int) =~= old(ctx).diagnostics@);
    }
}

/// Checks wildcards in heads and range restriction, as configured.
#[derive(Debug, Clone)]
pub struct Validate {
    /// Reject a rule whose head has a variable its body does not bind.
    pub enforce_range_restricted: bool,
    /// Reject the wildcard `_` in a rule head.
    pub reject_wildcard_in_head: bool,
}

impl Default for Validate {
    fn default() -> (r: Self)
        ensures
            r.enforce_range_restricted,
            r.reject_wildcard_in_head,
    {
        Validate { enforce_range_restricted: true, reject_wildcard_in_head: true }
    }
}

/// Some rule's head holds the wildcard.
pub open spec fn some_head_wild(rules: Seq<Rule>) -> bool {
    exists|i: int| 0 <= i < rules.len() && head_has_wild(#[trigger] rules[i])
}

/// Some rule is not range restricted.
pub open spec fn some_unsafe(rules: Seq<Rule>) -> bool {
    exists|i: int| 0 <= i < rules.len() && !range_restricted(#[trigger] rules[i])
}

/// The error names the first rule with the wildcard in its head.
pub open spec fn wildcard_error(rules: Seq<Rule>, e: SpindleError) -> bool {
    exists|i: int|
        0 <= i < rules.len() && head_has_wild(#[trigger] rules[i]) && (forall|k: int|
            0 <= k < i ==> !head_has_wild(#[trigger] rules[k])) && validation_message(e) == Some(
            wildcard_message(rules[i].label@),
        )
}

/// The error names the first rule that is not range restricted, and a
/// variable of its head that its body does not bind.
pub open spec fn range_error(rules: Seq<Rule>, e: SpindleError) -> bool {
    exists|i: int, v: Seq<char>|
        0 <= i < rules.len() && #[trigger] unsafe_var(rules[i], v) && (forall|k: int|
            0 <= k < i ==> range_restricted(#[trigger] rules[k])) && validation_message(e) == Some(
            unsafe_message(rules[i].label@, v),
        )
}

/// The checks of `v` fail on the rules.
pub open spec fn validate_fails(v: Validate, rules: Seq<Rule>) -> bool {
    (v.reject_wildcard_in_head && some_head_wild(rules)) || (v.enforce_range_restricted && some_unsafe(rules))
}

impl PipelineStage for Validate {
    fn name(&self) -> (r: &'static str)
        ensures
            r@ == "validate"@,
    {
        "validate"
    }

    fn apply(&self, theory: Theory, ctx: &mut PipelineContext) -> (r: Result<Theory, SpindleError>)
        ensures
            r is Ok <==> !validate_fails(*self, theory.spec_rules()),
            r matches Ok(t) ==> t == theory && diag_pushed(
                old(ctx).diagnostics@,
                final(ctx).diagnostics@,
                Severity::Info,
                "validate"@,
                "validation passed"@,
            ),
            final(ctx).metadata@ == old(ctx).metadata@,
            r matches Err(e) ==> {
                let rules = theory.spec_rules();
                &&& final(ctx).diagnostics@ == old(ctx).diagnostics@
                &&& (self.reject_wildcard_in_head && some_head_wild(rules)) ==> wildcard_error(rules, e)
                &&& !(self.reject_wildcard_in_head && some_head_wild(rules)) ==> range_error(rules, e)
            },
    {
        if self.reject_wildcard_in_head {
            match validate_wildcards(&theory) {
                Ok(()) => {},
                Err(e) => {
                    return Err(e);
                },
            }
        }
        if self.enforce_range_restricted {
            match validate_range_restriction(&theory) {
                Ok(()) => {},
                Err(e) => {
                    return Err(e);
                },
            }
        }
        push_diag(ctx, Severity::Info, "validate", String::from_str("validation passed"));
        Ok(theory)
    }
}

/// Keeps only the rules active at a reference time (see
/// [`filter_temporal`]).
#[derive(Debug, Clone)]
pub struct TemporalFilter {
    /// The time as of which the theory is read.
    pub reference_time: TimePoint,
}

/// The message for `n` removed rules.
pub open spec fn removed_message(n: nat) -> Seq<char> {
    "removed "@ + decimal(n) + " temporally inactive rules"@
}

/// The rules active at `t` are no more than the rules.
proof fn lemma_active_len(rules: Seq<Rule>, t: TimePoint)
    ensures
        active_rules(rules, t).len() <= rules.len(),
    decreases rules.len(),
{
    if rules.len() > 0 {
        lemma_active_len(rules.drop_last(), t);
    }
}

impl PipelineStage for TemporalFilter {
    fn name(&self) -> (r: &'static str)
        ensures
            r@ == "temporal_filter"@,
    {
        "temporal_filter"
    }

    fn apply(&self, theory: Theory, ctx: &mut PipelineContext) -> (r: Result<Theory, SpindleError>)
        ensures
            r matches Ok(t) && same_rules(t.spec_rules(), active_rules(theory.spec_rules(), self.reference_time))
                && t.spec_sups() == kept_sups(theory.spec_sups(), t.spec_rules()) && {
                let removed = theory.spec_rules().len() - t.spec_rules().len();
                &&& removed > 0 ==> diag_pushed(
                    old(ctx).diagnostics@,
                    final(ctx).diagnostics@,
                    Severity::Info,
                    "temporal_filter"@,
                    removed_message(removed as nat),
                )
                &&& removed == 0 ==> final(ctx).diagnostics@ == old(ctx).diagnostics@
            },
            meta_set(old(ctx).metadata@, final(ctx).metadata@, "evaluated_at"@, MetadataVal::TimePoint(self.reference_time)),
    {
        let filtered = filter_temporal(&theory, self.reference_time);
        proof {
            lemma_active_len(theory.spec_rules(), self.reference_time);
        }
        let removed = theory.rule_count() - filtered.rule_count();
        if removed > 0 {
            let mut message = String::from_str("removed ");
            push_decimal(&mut message, removed as u64);
            message.append(" temporally inactive rules");
            push_diag(ctx, Severity::Info, "temporal_filter", message);
        }
        ctx.set_metadata("evaluated_at", MetadataVal::TimePoint(self.reference_time));
        Ok(filtered)
    }
}

/// Rejects a theory whose literals still have temporal variables (a
/// temporal expression not yet resolved); with `strict` off it only warns.
#[derive(Debug, Clone)]
pub struct TemporalVarValidation {
    /// Whether unresolved temporal variables are an error rather than a warning.
    pub strict: bool,
}

impl Default for TemporalVarValidation {
    /// The lenient stage: unresolved temporal variables only warn.
    fn default() -> (r: Self)
        ensures
            !r.strict,
    {
        TemporalVarValidation { strict: false }
    }
}

/// The report line for literal `l` of the rule labelled `label`.
pub open spec fn unresolved_entry(label: Seq<char>, l: Literal) -> Seq<char> {
    "rule '"@ + label + "': literal '"@ + spl_text(l) + "' has unresolved temporal variables"@
}

/// The report lines for the literals of `lits` that have temporal variables.
pub open spec fn lits_unresolved(label: Seq<char>, lits: Seq<Literal>) -> Seq<Seq<char>>
    decreases lits.len(),
{
    if lits.len() == 0 {
        Seq::empty()
    } else {
        lits_unresolved(label, lits.drop_last()) + (if lits.last().temporal_expr.is_some() {
            seq![unresolved_entry(label, lits.last())]
        } else {
            Seq::empty()
        })
    }
}

/// The report lines for the rules: for each rule, its body literals, then
/// its head literals.
pub open spec fn rules_unresolved(rules: Seq<Rule>) -> Seq<Seq<char>>
    decreases rules.len(),
{
    if rules.len() == 0 {
        Seq::empty()
    } else {
        rules_unresolved(rules.drop_last()) + lits_unresolved(rules.last().label@, rules.last().body@)
            + lits_unresolved(rules.last().label@, rules.last().head@)
    }
}

/// The message that reports the lines.
pub open spec fn unresolved_message(lines: Seq<Seq<char>>) -> Seq<char> {
    decimal(lines.len()) + " unresolved temporal variable(s) after grounding:\n  "@ + joined(lines, "\n  "@)
}

/// Append the report lines of `lits` to `out`.
fn collect_unresolved(label: &String, lits: &Vec<Literal>, out: &mut Vec<String>)
    ensures
        string_views(final(out)@) == string_views(old(out)@) + lits_unresolved(label@, lits@),
{
    let mut j: usize = 0;
    while j < lits.len()
        invariant
            0 <= j <= lits@.len(),
            string_views(out@) == string_views(old(out)@) + lits_unresolved(label@, lits@.take(j as int)),
        decreases lits@.len() - j,
    {
        proof {
            assert(lits@.take(j + 1).drop_last() =~= lits@.take(j as int));
        }
        let ghost before = out@;
        if lits[j].has_temporal_variables() {
            let mut line = String::from_str("rule '");
            line.append(label.as_str());
            line.append("': literal '");
            let spl = lits[j].to_spl();
            line.append(spl.as_str());
            line.append("' has unresolved temporal variables");
            out.push(line);
            proof {
                assert(string_views(out@) =~= string_views(before) + seq![line@]);
            }
        }
        j = j + 1;
    }
    proof {
        assert(lits@.take(lits@.len() as int) =~= lits@);
    }
}

/// The report lines of the theory's rules.
fn unresolved_lines(theory: &Theory) -> (r: Vec<String>)
    ensures
        string_views(r@) == rules_unresolved(theory.spec_rules()),
{
    let rules = theory.rules();
    let mut out: Vec<String> = Vec::new();
    let mut i: usize = 0;
    while i < rules.len()
        invariant
            0 <= i <= rules@.len(),
            rules@ == theory.spec_rules(),
            string_views(out@) == rules_unresolved(rules@.take(i as int)),
        decreases rules@.len() - i,
    {
        proof {
            assert(rules@.take(i + 1).drop_last() =~= rules@.take(i as int));
        }
        collect_unresolved(&rules[i].label, &rules[i].body, &mut out);
        collect_unresolved(&rules[i].label, &rules[i].head, &mut out);
        i = i + 1;
    }
    proof {
        assert(rules@.take(rules@.len() as int) =~= rules@);
        assert(string_views(Seq::<String>::empty()) =~= Seq::<Seq<char>>::empty());
    }
    out
}

impl PipelineStage for TemporalVarValidation {
    fn name(&self) -> (r: &'static str)
        ensures
            r@ == "temporal_var_validation"@,
    {
        "temporal_var_validation"
    }

    fn apply(&self, theory: Theory, ctx: &mut PipelineContext) -> (r: Result<Theory, SpindleError>)
        ensures
            ({
                let lines = rules_unresolved(theory.spec_rules());
                &&& r is Ok <==> (lines.len() == 0 || !self.strict)
                &&& r matches Ok(t) ==> t == theory
                &&& r matches Err(e) ==> validation_message(e) == Some(unresolved_message(lines))
                &&& (lines.len() > 0 && !self.strict) ==> diag_pushed(
                    old(ctx).diagnostics@,
                    final(ctx).diagnostics@,
                    Severity::Warning,
                    "temporal_var_validation"@,
                    unresolved_message(lines),
                )
                &&& (lines.len() == 0 || self.strict) ==> final(ctx).diagnostics@ == old(ctx).diagnostics@
            }),
            final(ctx).metadata@ == old(ctx).metadata@,
    {
        let lines = unresolved_lines(&theory);
        if lines.len() == 0 {
            return Ok(theory);
        }
        let mut message = String::new();
        push_decimal(&mut message, lines.len() as u64);
        message.append(" unresolved temporal variable(s) after grounding:\n  ");
        let body = join(&lines, "\n  ");
        message.append(body.as_str());
        if self.strict {
            return Err(SpindleError::Validation { message });
        }
        push_diag(ctx, Severity::Warning, "temporal_var_validation", message);
        Ok(theory)
    }
}

/// Instantiates the variables of rules. A theory without variables passes
/// unchanged; instantiating variables is not offered here, so a theory with
/// variables is refused.
#[derive(Debug, Clone)]
pub struct Ground {
    /// The most rounds of instantiation.
    pub max_iterations: usize,
    /// The most instances generated.
    pub max_instances: usize,
}

impl Default for Ground {
    fn default() -> (r: Self)
        ensures
            r.max_iterations == 100,
            r.max_instances == 10000,
    {
        Ground { max_iterations: 100, max_instances: 10000 }
    }
}

/// The metadata that a run of grounding over a theory without variables
/// records: not performed, no variables, no instances, no limit hit.
pub open spec fn grounding_skipped_meta(m: Seq<(String, MetadataVal)>, m4: Seq<(String, MetadataVal)>) -> bool {
    exists|m1: Seq<(String, MetadataVal)>, m2: Seq<(String, MetadataVal)>, m3: Seq<(String, MetadataVal)>|
        #![trigger meta_set(m, m1, "grounding_performed"@, MetadataVal::Bool(false)), meta_set(m1, m2, "grounding_had_variables"@, MetadataVal::Bool(false)), meta_set(m2, m3, "grounding_instances"@, MetadataVal::Usize(0))]
        {
            &&& meta_set(m, m1, "grounding_performed"@, MetadataVal::Bool(false))
            &&& meta_set(m1, m2, "grounding_had_variables"@, MetadataVal::Bool(false))
            &&& meta_set(m2, m3, "grounding_instances"@, MetadataVal::Usize(0))
            &&& meta_set(m3, m4, "grounding_limit_hit"@, MetadataVal::Bool(false))
        }
}

impl PipelineStage for Ground {
    fn name(&self) -> (r: &'static str)
        ensures
            r@ == "ground"@,
    {
        "ground"
    }

    fn apply(&self, theory: Theory, ctx: &mut PipelineContext) -> (r: Result<Theory, SpindleError>)
        ensures
            r is Ok <==> !rules_have_vars(theory.spec_rules()),
            r matches Ok(t) ==> {
                &&& t == theory
                &&& diag_pushed(
                    old(ctx).diagnostics@,
                    final(ctx).diagnostics@,
                    Severity::Info,
                    "ground"@,
                    "no variables found; grounding skipped"@,
                )
                &&& grounding_skipped_meta(old(ctx).metadata@, final(ctx).metadata@)
            },
            r matches Err(e) ==> e is Grounding && final(ctx).diagnostics@ == old(ctx).diagnostics@
                && final(ctx).metadata@ == old(ctx).metadata@,
    {
        if theory_has(&theory, true) {
            let message = String::from_str("grounding of variables is not available");
            return Err(SpindleError::Grounding { message });
        }
        push_diag(ctx, Severity::Info, "ground", String::from_str("no variables found; grounding skipped"));
        let ghost m0 = ctx.metadata@;
        ctx.set_metadata("grounding_performed", MetadataVal::Bool(false));
        let ghost m1 = ctx.metadata@;
        ctx.set_metadata("grounding_had_variables", MetadataVal::Bool(false));
        let ghost m2 = ctx.metadata@;
        ctx.set_metadata("grounding_instances", MetadataVal::Usize(0));
        let ghost m3 = ctx.metadata@;
        ctx.set_metadata("grounding_limit_hit", MetadataVal::Bool(false));
        proof {
            assert(meta_set(m0, m1, "grounding_performed"@, MetadataVal::Bool(false)));
            assert(meta_set(m1, m2, "grounding_had_variables"@, MetadataVal::Bool(false)));
            assert(meta_set(m2, m3, "grounding_instances"@, MetadataVal::Usize(0)));
        }
        Ok(theory)
    }
}

/// Replaces each wildcard `_` by a fresh variable (see
/// [`rewrite_wildcards`]).
#[derive(Debug, Clone, Copy)]
pub struct WildcardRewrite;

impl PipelineStage for WildcardRewrite {
    fn name(&self) -> (r: &'static str)
        ensures
            r@ == "wildcard_rewrite"@,
    {
        "wildcard_rewrite"
    }

    fn apply(&self, theory: Theory, ctx: &mut PipelineContext) -> (r: Result<Theory, SpindleError>)
        ensures
            r is Ok <==> rules_wilds(theory.spec_rules()) < usize::MAX,
            r matches Ok(t) ==> rules_rewritten(theory.spec_rules(), t.spec_rules()) && t.spec_sups()
                == theory.spec_sups(),
            r matches Err(e) ==> e is Validation,
            final(ctx).diagnostics@ == old(ctx).diagnostics@,
            final(ctx).metadata@ == old(ctx).metadata@,
    {
        match rewrite_wildcards(&theory) {
            Some(t) => Ok(t),
            None => Err(SpindleError::Validation { message: String::from_str("too many wildcards to number") }),
        }
    }
}

/// One of the stages a pipeline can run.
#[derive(Debug, Clone)]
pub enum Stage {
    /// See [`Validate`].
    Validate(Validate),
    /// See [`WildcardRewrite`].
    WildcardRewrite(WildcardRewrite),
    /// See [`Ground`].
    Ground(Ground),
    /// See [`TemporalFilter`].
    TemporalFilter(TemporalFilter),
    /// See [`TemporalVarValidation`].
    TemporalVarValidation(TemporalVarValidation),
    /// See [`TemporalBridge`].
    TemporalBridge(TemporalBridge),
}

/// The stage fails on the theory.
pub open spec fn stage_fails(s: Stage, th: Theory) -> bool {
    match s {
        Stage::Validate(v) => validate_fails(v, th.spec_rules()),
        Stage::WildcardRewrite(_) => rules_wilds(th.spec_rules()) >= usize::MAX,
        Stage::Ground(_) => rules_have_vars(th.spec_rules()),
        Stage::TemporalFilter(_) => false,
        Stage::TemporalVarValidation(v) => rules_unresolved(th.spec_rules()).len() > 0 && v.strict,
        Stage::TemporalBridge(_) => false,
    }
}

/// What a successful run of the stage makes of the theory `th` and the
/// context's diagnostics `d` and metadata `m`: the theory `t`, and `d2`, `m2`.
pub open spec fn stage_ok(
    s: Stage,
    th: Theory,
    d: Seq<Diagnostic>,
    m: Seq<(String, MetadataVal)>,
    t: Theory,
    d2: Seq<Diagnostic>,
    m2: Seq<(String, MetadataVal)>,
) -> bool {
    match s {
        Stage::Validate(_) => t == th && diag_pushed(d, d2, Severity::Info, "validate"@, "validation passed"@) && m2 == m,
        Stage::WildcardRewrite(_) => rules_rewritten(th.spec_rules(), t.spec_rules()) && t.spec_sups() == th.spec_sups()
            && d2 == d && m2 == m,
        Stage::Ground(_) => t == th && diag_pushed(d, d2, Severity::Info, "ground"@, "no variables found; grounding skipped"@)
            && grounding_skipped_meta(m, m2),
        Stage::TemporalFilter(f) => {
            let removed = th.spec_rules().len() - t.spec_rules().len();
            &&& same_rules(t.spec_rules(), active_rules(th.spec_rules(), f.reference_time))
            &&& t.spec_sups() == kept_sups(th.spec_sups(), t.spec_rules())
            &&& removed > 0 ==> diag_pushed(d, d2, Severity::Info, "temporal_filter"@, removed_message(removed as nat))
            &&& removed == 0 ==> d2 == d
            &&& meta_set(m, m2, "evaluated_at"@, MetadataVal::TimePoint(f.reference_time))
        },
        Stage::TemporalVarValidation(v) => {
            let lines = rules_unresolved(th.spec_rules());
            &&& t == th
            &&& m2 == m
            &&& lines.len() > 0 ==> diag_pushed(d, d2, Severity::Warning, "temporal_var_validation"@, unresolved_message(lines))
            &&& lines.len() == 0 ==> d2 == d
        },
        Stage::TemporalBridge(_) => {
            let count = t.spec_rules().len() - th.spec_rules().len();
            &&& bridged(th, t)
            &&& m2 == m
            &&& count > 0 ==> diag_pushed(d, d2, Severity::Info, "temporal_bridge"@, bridge_message(count as nat))
            &&& count == 0 ==> d2 == d
        },
    }
}

/// The name of a stage, as its diagnostics give it.
pub open spec fn stage_name(s: Stage) -> Seq<char> {
    match s {
        Stage::Validate(_) => "validate"@,
        Stage::WildcardRewrite(_) => "wildcard_rewrite"@,
        Stage::Ground(_) => "ground"@,
        Stage::TemporalFilter(_) => "temporal_filter"@,
        Stage::TemporalVarValidation(_) => "temporal_var_validation"@,
        Stage::TemporalBridge(_) => "temporal_bridge"@,
    }
}

impl Stage {
    /// The stage's name.
    pub fn name(&self) -> (r: &'static str)
        ensures
            r@ == stage_name(*self),
    {
        match self {
            Stage::Validate(s) => s.name(),
            Stage::WildcardRewrite(s) => s.name(),
            Stage::Ground(s) => s.name(),
            Stage::TemporalFilter(s) => s.name(),
            Stage::TemporalVarValidation(s) => s.name(),
            Stage::TemporalBridge(s) => s.name(),
        }
    }

    /// Run the stage.
    pub fn apply(&self, theory: Theory, ctx: &mut PipelineContext) -> (r: Result<Theory, SpindleError>)
        ensures
            r is Ok <==> !stage_fails(*self, theory),
            r matches Ok(t) ==> stage_ok(
                *self,
                theory,
                old(ctx).diagnostics@,
                old(ctx).metadata@,
                t,
                final(ctx).diagnostics@,
                final(ctx).metadata@,
            ),
            r is Err ==> final(ctx).diagnostics@ == old(ctx).diagnostics@ && final(ctx).metadata@ == old(ctx).metadata@,
    {
        match self {
            Stage::Validate(s) => s.apply(theory, ctx),
            Stage::WildcardRewrite(s) => s.apply(theory, ctx),
            Stage::Ground(s) => s.apply(theory, ctx),
            Stage::TemporalFilter(s) => s.apply(theory, ctx),
            Stage::TemporalVarValidation(s) => s.apply(theory, ctx),
            Stage::TemporalBridge(s) => s.apply(theory, ctx),
        }
    }
}

/// The stages succeed in order on the theory: `ths[i]`, `ds[i]`, `ms[i]`
/// are the theory and context before stage `i` of the first `k`, starting
/// from `th` and an empty context.
pub open spec fn trace_ok(
    stages: Seq<Stage>,
    th: Theory,
    k: int,
    ths: Seq<Theory>,
    ds: Seq<Seq<Diagnostic>>,
    ms: Seq<Seq<(String, MetadataVal)>>,
) -> bool {
    &&& 0 <= k <= stages.len()
    &&& ths.len() == k + 1
    &&& ds.len() == k + 1
    &&& ms.len() == k + 1
    &&& ths[0] == th
    &&& ds[0].len() == 0
    &&& ms[0].len() == 0
    &&& forall|i: int| 0 <= i < k ==> #[trigger] step_ok(stages, ths, ds, ms, i)
}

/// Stage `i` succeeds on its theory and context, giving the next ones.
pub open spec fn step_ok(
    stages: Seq<Stage>,
    ths: Seq<Theory>,
    ds: Seq<Seq<Diagnostic>>,
    ms: Seq<Seq<(String, MetadataVal)>>,
    i: int,
) -> bool {
    !stage_fails(stages[i], ths[i]) && stage_ok(stages[i], ths[i], ds[i], ms[i], ths[i + 1], ds[i + 1], ms[i + 1])
}

/// Every stage succeeded: the final theory and context are `t`, `d`, `m`.
pub open spec fn run_ok(stages: Seq<Stage>, th: Theory, t: Theory, d: Seq<Diagnostic>, m: Seq<(String, MetadataVal)>) -> bool {
    exists|ths: Seq<Theory>, ds: Seq<Seq<Diagnostic>>, ms: Seq<Seq<(String, MetadataVal)>>|
        #[trigger] trace_ok(stages, th, stages.len() as int, ths, ds, ms) && ths.last() == t && ds.last() == d
            && ms.last() == m
}

/// Some stage failed, after the stages before it succeeded.
pub open spec fn run_fails(stages: Seq<Stage>, th: Theory) -> bool {
    exists|k: int, ths: Seq<Theory>, ds: Seq<Seq<Diagnostic>>, ms: Seq<Seq<(String, MetadataVal)>>|
        #[trigger] trace_ok(stages, th, k, ths, ds, ms) && k < stages.len() && stage_fails(stages[k], ths.last())
}

/// A sequence of stages, run in order.
#[derive(Debug)]
pub struct Pipeline {
    stages: Vec<Stage>,
}

/// A pipeline under construction.
#[derive(Debug)]
pub struct PipelineBuilder {
    stages: Vec<Stage>,
}

impl Pipeline {
    /// The stages, in order.
    pub closed spec fn spec_stages(&self) -> Seq<Stage> {
        self.stages@
    }

    /// A builder with no stages.
    pub fn builder() -> (r: PipelineBuilder)
        ensures
            r.spec_stages().len() == 0,
    {
        PipelineBuilder { stages: Vec::new() }
    }

    /// The default pipeline: validation, wildcard rewriting, grounding.
    pub fn default_pipeline() -> (r: Self)
        ensures
            r.spec_stages().len() == 3,
            r.spec_stages()[0] matches Stage::Validate(v) && v.enforce_range_restricted && v.reject_wildcard_in_head,
            r.spec_stages()[1] is WildcardRewrite,
            r.spec_stages()[2] matches Stage::Ground(g) && g.max_iterations == 100 && g.max_instances == 10000,
    {
        Self::builder().stage(Stage::Validate(Validate::default())).stage(Stage::WildcardRewrite(WildcardRewrite)).stage(
            Stage::Ground(Ground::default()),
        ).build()
    }

    /// Run the stages in order on the theory, from an empty context; the
    /// first failing stage's error stops the run.
    pub fn run(&self, theory: Theory) -> (r: Result<(Theory, PipelineContext), SpindleError>)
        ensures
            r matches Ok((t, ctx)) ==> run_ok(self.spec_stages(), theory, t, ctx.diagnostics@, ctx.metadata@),
            r is Err ==> run_fails(self.spec_stages(), theory),
    {
        let ghost th0 = theory;
        let mut ctx = PipelineContext::new();
        let mut current = theory;
        let ghost mut ths: Seq<Theory> = seq![th0];
        let ghost mut ds: Seq<Seq<Diagnostic>> = seq![ctx.diagnostics@];
        let ghost mut ms: Seq<Seq<(String, MetadataVal)>> = seq![ctx.metadata@];
        let mut i: usize = 0;
        while i < self.stages.len()
            invariant
                0 <= i <= self.stages@.len(),
                trace_ok(self.stages@, th0, i as int, ths, ds, ms),
                th0 == theory,
                ths.last() == current,
                ds.last() == ctx.diagnostics@,
                ms.last() == ctx.metadata@,
            decreases self.stages@.len() - i,
        {
            let ghost before = current;
            let ghost d0 = ctx.diagnostics@;
            let ghost m0 = ctx.metadata@;
            match self.stages[i].apply(current, &mut ctx) {
                Ok(t) => {
                    proof {
                        let ths2 = ths.push(t);
                        let ds2 = ds.push(ctx.diagnostics@);
                        let ms2 = ms.push(ctx.metadata@);
                        assert(ths2[0] == ths[0] && ds2[0] == ds[0] && ms2[0] == ms[0]);
                        assert(ths2[i as int] == before && ds2[i as int] == d0 && ms2[i as int] == m0);
                        assert(ths2[i + 1] == t && ds2[i + 1] == ctx.diagnostics@ && ms2[i + 1] == ctx.metadata@);
                        assert forall|j: int| 0 <= j < i + 1 implies #[trigger] step_ok(self.stages@, ths2, ds2, ms2, j) by {
                            if j < i {
                                assert(step_ok(self.stages@, ths, ds, ms, j));
                                assert(ths2[j] == ths[j] && ths2[j + 1] == ths[j + 1]);
                                assert(ds2[j] == ds[j] && ds2[j + 1] == ds[j + 1]);
                                assert(ms2[j] == ms[j] && ms2[j + 1] == ms[j + 1]);
                            }
                        }
                        assert(trace_ok(self.stages@, th0, i + 1, ths2, ds2, ms2));
                        ths = ths2;
                        ds = ds2;
                        ms = ms2;
                    }
                    current = t;
                },
                Err(e) => {
                    proof {
                        assert(trace_ok(self.stages@, th0, i as int, ths, ds, ms));
                        assert(stage_fails(self.stages@[i as int], ths.last()));
                    }
                    return Err(e);
                },
            }
            i = i + 1;
        }
        Ok((current, ctx))
    }
}

impl PipelineBuilder {
    /// The stages added so far, in order.
    pub closed spec fn spec_stages(&self) -> Seq<Stage> {
        self.stages@
    }

    /// Add a stage at the end.
    pub fn stage(self, s: Stage) -> (r: Self)
        ensures
            r.spec_stages() == self.spec_stages().push(s),
    {
        let mut stages = self.stages;
        stages.push(s);
        PipelineBuilder { stages }
    }

    /// Insert a stage at position `index`.
    pub fn stage_at(self, index: usize, s: Stage) -> (r: Self)
        requires
            index <= self.spec_stages().len(),
        ensures
            r.spec_stages() == self.spec_stages().insert(index as int, s),
    {
        let mut stages = self.stages;
        stages.insert(index, s);
        PipelineBuilder { stages }
    }

    /// The pipeline of the stages added.
    pub fn build(self) -> (r: Pipeline)
        ensures
            r.spec_stages() == self.spec_stages(),
    {
        Pipeline { stages: self.stages }
    }
}

/// The default pipeline (see [`Pipeline::default_pipeline`]).
pub fn default_pipeline() -> (r: Pipeline)
    ensures
        r.spec_stages().len() == 3,
        r.spec_stages()[0] matches Stage::Validate(v) && v.enforce_range_restricted && v.reject_wildcard_in_head,
        r.spec_stages()[1] is WildcardRewrite,
        r.spec_stages()[2] matches Stage::Ground(g) && g.max_iterations == 100 && g.max_instances == 10000,
{
    Pipeline::default_pipeline()
}

} // verus!
