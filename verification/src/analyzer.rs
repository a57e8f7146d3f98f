//! Semantic analysis of the HIR: a warning for every variable that a
//! behavior defines (as an argument or a derivation) and never uses.

use vstd::prelude::*;
use crate::error::{Diagnostic, Severity, Span};
use crate::hir::{HirArgument, HirBehaviorHeader, HirDiscourse, HirExpression, HirLiteral};
use crate::registry::{find_name, first_index_of, lemma_first_index_of};
use crate::text::{chars_of, concat3, str_eq};
use crate::types::OnuType;

verus! {

/// The variable names an expression reads, in order of traversal.
pub open spec fn uses(e: HirExpression) -> Seq<Seq<char>>
    decreases e,
{
    match e {
        HirExpression::Variable(n, _) => seq![n@],
        HirExpression::Call { args, .. } => uses_all(args@),
        HirExpression::BinaryOp { left, right, .. } => uses(*left) + uses(*right),
        HirExpression::Derivation { value, body, .. } => uses(*value) + uses(*body),
        HirExpression::If { condition, then_branch, else_branch } =>
            uses(*condition) + uses(*then_branch) + uses(*else_branch),
        HirExpression::ActsAs { subject, .. } => uses(*subject),
        HirExpression::Tuple(es) => uses_all(es@),
        HirExpression::Index { subject, .. } => uses(*subject),
        HirExpression::Block(es) => uses_all(es@),
        HirExpression::Emit(inner) => uses(*inner),
        HirExpression::Drop(inner) => uses(*inner),
        HirExpression::Literal(_) => Seq::empty(),
    }
}

pub open spec fn uses_all(es: Seq<HirExpression>) -> Seq<Seq<char>>
    decreases es,
{
    if es.len() == 0 {
        Seq::empty()
    } else {
        uses_all(es.drop_last()) + uses(es.last())
    }
}

/// The names that derivations in an expression bind, in order of traversal
/// (a derivation's name before those inside its value and body).
pub open spec fn derived(e: HirExpression) -> Seq<Seq<char>>
    decreases e,
{
    match e {
        HirExpression::Call { args, .. } => derived_all(args@),
        HirExpression::BinaryOp { left, right, .. } => derived(*left) + derived(*right),
        HirExpression::Derivation { name, value, body, .. } => seq![name@] + derived(*value) + derived(*body),
        HirExpression::If { condition, then_branch, else_branch } =>
            derived(*condition) + derived(*then_branch) + derived(*else_branch),
        HirExpression::ActsAs { subject, .. } => derived(*subject),
        HirExpression::Tuple(es) => derived_all(es@),
        HirExpression::Index { subject, .. } => derived(*subject),
        HirExpression::Block(es) => derived_all(es@),
        HirExpression::Emit(inner) => derived(*inner),
        HirExpression::Drop(inner) => derived(*inner),
        _ => Seq::empty(),
    }
}

pub open spec fn derived_all(es: Seq<HirExpression>) -> Seq<Seq<char>>
    decreases es,
{
    if es.len() == 0 {
        Seq::empty()
    } else {
        derived_all(es.drop_last()) + derived(es.last())
    }
}

/// Whether a name starts with `__` (arguments the compiler injects).
pub open spec fn is_synthetic(n: Seq<char>) -> bool {
    n.len() >= 2 && n[0] == '_' && n[1] == '_'
}

/// The semantic analyzer: warnings for variables defined and never used.
pub struct SemanticAnalyzer {
    diagnostics: Vec<Diagnostic>,
}

/// The names of the arguments a user wrote.
pub open spec fn user_arg_names(args: Seq<HirArgument>) -> Seq<Seq<char>>
    decreases args.len(),
{
    if args.len() == 0 {
        Seq::empty()
    } else {
        let rest = user_arg_names(args.drop_last());
        if is_synthetic(args.last().name@) { rest } else { rest.push(args.last().name@) }
    }
}

/// The names of `names` that `used` does not hold, in order.
pub open spec fn not_in(names: Seq<Seq<char>>, used: Seq<Seq<char>>) -> Seq<Seq<char>>
    decreases names.len(),
{
    if names.len() == 0 {
        Seq::empty()
    } else {
        let rest = not_in(names.drop_last(), used);
        if used.contains(names.last()) { rest } else { rest.push(names.last()) }
    }
}

/// A list without repeats, keeping first occurrences in order.
pub open spec fn first_occurrences(s: Seq<Seq<char>>) -> Seq<Seq<char>>
    decreases s.len(),
{
    if s.len() == 0 {
        Seq::empty()
    } else {
        let d = first_occurrences(s.drop_last());
        if d.contains(s.last()) { d } else { d.push(s.last()) }
    }
}

/// The variables a behavior defines and never uses, in order of definition.
pub open spec fn unused_names(header: HirBehaviorHeader, body: HirExpression) -> Seq<Seq<char>> {
    not_in(first_occurrences(user_arg_names(header.args@) + derived(body)), uses(body))
}

/// The warning about an unused variable.
pub open spec fn is_unused_warning(d: Diagnostic, n: Seq<char>) -> bool {
    &&& d.severity == Severity::Warning
    &&& d.span == Span { start: 0, end: 0, line: 0, column: 0 }
    &&& d.message@ == "Variable '"@ + n + "' is defined but never used"@
    &&& d.actionable_hint matches Some(h) && h@ == "Remove the binding '"@ + n + "' or prefix it with '_' to silence this warning"@
}

/// The names reported for a list of discourses: those of each behavior in
/// turn; modules and shapes define no variables.
pub open spec fn reported_names(ds: Seq<HirDiscourse>) -> Seq<Seq<char>>
    decreases ds.len(),
{
    if ds.len() == 0 {
        Seq::empty()
    } else {
        reported_names(ds.drop_last()) + match ds.last() {
            HirDiscourse::Behavior { header, body } => unused_names(header, body),
            _ => Seq::empty(),
        }
    }
}

/// The characters of each string.
pub open spec fn names_of(v: Seq<String>) -> Seq<Seq<char>> {
    v.map_values(|s: String| s@)
}

proof fn lemma_names_of_push(v: Seq<String>, x: String)
    ensures
        names_of(v.push(x)) == names_of(v).push(x@),
{
    assert(names_of(v.push(x)) =~= names_of(v).push(x@));
}

/// Whether `name` is among the names.
fn has_name(names: &Vec<String>, name: &str) -> (r: bool)
    ensures
        r == names_of(names@).contains(name@),
{
    let r = find_name(names, name);
    proof {
        if let Some(i) = r {
            assert(names_of(names@)[i as int] == name@);
        } else {
            if names_of(names@).contains(name@) {
                let j = choose|j: int| 0 <= j < names_of(names@).len() && names_of(names@)[j] == name@;
                assert(names@[j]@ == name@);
            }
        }
    }
    r.is_some()
}

fn push_name(out: &mut Vec<String>, name: &String)
    ensures
        names_of(final(out)@) == names_of(old(out)@).push(name@),
{
    let ghost before = out@;
    out.push(name.clone());
    proof { lemma_names_of_push(before, out@.last()); assert(out@ == before.push(out@.last())); }
}

/// Appends the names an expression reads.
fn collect_uses(e: &HirExpression, out: &mut Vec<String>)
    ensures
        names_of(final(out)@) == names_of(old(out)@) + uses(*e),
    decreases e,
{
    let ghost before = names_of(out@);
    match e {
        HirExpression::Variable(n, _) => {
            push_name(out, n);
            assert(names_of(out@) =~= before + uses(*e));
        }
        HirExpression::Call { args, .. } => { collect_uses_all(args, out); }
        HirExpression::Tuple(es) => { collect_uses_all(es, out); }
        HirExpression::Block(es) => { collect_uses_all(es, out); }
        HirExpression::BinaryOp { left, right, .. } => {
            collect_uses(left, out);
            collect_uses(right, out);
            assert(names_of(out@) =~= before + uses(*e));
        }
        HirExpression::Derivation { value, body, .. } => {
            collect_uses(value, out);
            collect_uses(body, out);
            assert(names_of(out@) =~= before + uses(*e));
        }
        HirExpression::If { condition, then_branch, else_branch } => {
            collect_uses(condition, out);
            collect_uses(then_branch, out);
            collect_uses(else_branch, out);
            assert(names_of(out@) =~= before + uses(*e));
        }
        HirExpression::ActsAs { subject, .. } => { collect_uses(subject, out); }
        HirExpression::Index { subject, .. } => { collect_uses(subject, out); }
        HirExpression::Emit(inner) => { collect_uses(inner, out); }
        HirExpression::Drop(inner) => { collect_uses(inner, out); }
        HirExpression::Literal(_) => {
            assert(names_of(out@) =~= before + uses(*e));
        }
    }
}

fn collect_uses_all(es: &Vec<HirExpression>, out: &mut Vec<String>)
    ensures
        names_of(final(out)@) == names_of(old(out)@) + uses_all(es@),
    decreases es,
{
    let ghost before = names_of(out@);
    let mut i: usize = 0;
    while i < es.len()
        invariant
            i <= es@.len(),
            names_of(out@) == before + uses_all(es@.subrange(0, i as int)),
        decreases es.len() - i,
    {
        assert(decreases_to!(es => es@[i as int]));
        assert(es@.subrange(0, i as int + 1).drop_last() =~= es@.subrange(0, i as int));
        collect_uses(&es[i], out);
        assert(names_of(out@) =~= before + uses_all(es@.subrange(0, i as int + 1)));
        i = i + 1;
    }
    assert(es@.subrange(0, i as int) =~= es@);
}

/// Appends the names derivations in an expression bind.
fn collect_derived(e: &HirExpression, out: &mut Vec<String>)
    ensures
        names_of(final(out)@) == names_of(old(out)@) + derived(*e),
    decreases e,
{
    let ghost before = names_of(out@);
    match e {
        HirExpression::Call { args, .. } => { collect_derived_all(args, out); }
        HirExpression::Tuple(es) => { collect_derived_all(es, out); }
        HirExpression::Block(es) => { collect_derived_all(es, out); }
        HirExpression::BinaryOp { left, right, .. } => {
            collect_derived(left, out);
            collect_derived(right, out);
            assert(names_of(out@) =~= before + derived(*e));
        }
        HirExpression::Derivation { name, value, body, .. } => {
            push_name(out, name);
            collect_derived(value, out);
            collect_derived(body, out);
            assert(names_of(out@) =~= before + derived(*e));
        }
        HirExpression::If { condition, then_branch, else_branch } => {
            collect_derived(condition, out);
            collect_derived(then_branch, out);
            collect_derived(else_branch, out);
            assert(names_of(out@) =~= before + derived(*e));
        }
        HirExpression::ActsAs { subject, .. } => { collect_derived(subject, out); }
        HirExpression::Index { subject, .. } => { collect_derived(subject, out); }
        HirExpression::Emit(inner) => { collect_derived(inner, out); }
        HirExpression::Drop(inner) => { collect_derived(inner, out); }
        _ => {
            assert(names_of(out@) =~= before + derived(*e));
        }
    }
}

fn collect_derived_all(es: &Vec<HirExpression>, out: &mut Vec<String>)
    ensures
        names_of(final(out)@) == names_of(old(out)@) + derived_all(es@),
    decreases es,
{
    let ghost before = names_of(out@);
    let mut i: usize = 0;
    while i < es.len()
        invariant
            i <= es@.len(),
            names_of(out@) == before + derived_all(es@.subrange(0, i as int)),
        decreases es.len() - i,
    {
        assert(decreases_to!(es => es@[i as int]));
        assert(es@.subrange(0, i as int + 1).drop_last() =~= es@.subrange(0, i as int));
        collect_derived(&es[i], out);
        assert(names_of(out@) =~= before + derived_all(es@.subrange(0, i as int + 1)));
        i = i + 1;
    }
    assert(es@.subrange(0, i as int) =~= es@);
}

/// Whether a name starts with `__`.
fn synthetic(name: &String) -> (r: bool)
    ensures
        r == is_synthetic(name@),
{
    let cs = chars_of(name.as_str());
    cs.len() >= 2 && cs[0] == '_' && cs[1] == '_'
}

/// The names of the behavior's arguments a user wrote.
fn collect_arg_names(args: &Vec<HirArgument>) -> (r: Vec<String>)
    ensures
        names_of(r@) == user_arg_names(args@),
{
    let mut out: Vec<String> = Vec::new();
    let mut i: usize = 0;
    while i < args.len()
        invariant
            i <= args@.len(),
            names_of(out@) == user_arg_names(args@.subrange(0, i as int)),
        decreases args.len() - i,
    {
        assert(args@.subrange(0, i as int + 1).drop_last() =~= args@.subrange(0, i as int));
        if !synthetic(&args[i].name) {
            push_name(&mut out, &args[i].name);
        }
        i = i + 1;
    }
    assert(args@.subrange(0, i as int) =~= args@);
    out
}

/// The names without repeats, first occurrences kept in order.
pub(crate) fn dedup_names(v: &Vec<String>) -> (r: Vec<String>)
    ensures
        names_of(r@) == first_occurrences(names_of(v@)),
{
    let mut out: Vec<String> = Vec::new();
    let mut i: usize = 0;
    while i < v.len()
        invariant
            i <= v@.len(),
            names_of(out@) == first_occurrences(names_of(v@.subrange(0, i as int))),
        decreases v.len() - i,
    {
        proof {
            assert(names_of(v@.subrange(0, i as int + 1)).drop_last() =~= names_of(v@.subrange(0, i as int)));
        }
        if !has_name(&out, v[i].as_str()) {
            push_name(&mut out, &v[i]);
        }
        i = i + 1;
    }
    assert(v@.subrange(0, i as int) =~= v@);
    out
}

impl SemanticAnalyzer {
    /// The warnings for a list of discourses: for each behavior, in order,
    /// one warning for every variable it defines (as an argument not
    /// starting with `__`, or by a derivation) and never reads, in order of
    /// first definition.
    pub fn analyze(discourses: &[HirDiscourse]) -> (r: Vec<Diagnostic>)
        ensures
            r@.len() == reported_names(discourses@).len(),
            forall|i: int| 0 <= i < r@.len() ==> is_unused_warning(#[trigger] r@[i], reported_names(discourses@)[i]),
    {
        let mut out: Vec<Diagnostic> = Vec::new();
        let mut k: usize = 0;
        while k < discourses.len()
            invariant
                k <= discourses@.len(),
                out@.len() == reported_names(discourses@.subrange(0, k as int)).len(),
                forall|i: int| 0 <= i < out@.len() ==> is_unused_warning(#[trigger] out@[i], reported_names(discourses@.subrange(0, k as int))[i]),
            decreases discourses.len() - k,
        {
            let ghost pre = reported_names(discourses@.subrange(0, k as int));
            assert(discourses@.subrange(0, k as int + 1).drop_last() =~= discourses@.subrange(0, k as int));
            match &discourses[k] {
                HirDiscourse::Behavior { header, body } => {
                    let warned = Self::unused_in_behavior(header, body);
                    let ghost w = unused_names(*header, *body);
                    let ghost o0 = out@;
                    assert(forall|i: int| 0 <= i < o0.len() ==> is_unused_warning(#[trigger] o0[i], pre[i]));
                    let mut j: usize = 0;
                    while j < warned.len()
                        invariant
                            names_of(warned@) == w,
                            j <= warned@.len(),
                            out@.len() == o0.len() + j,
                            forall|i: int| 0 <= i < o0.len() ==> out@[i] == o0[i],
                            forall|i: int| 0 <= i < j ==> is_unused_warning(#[trigger] out@[o0.len() + i], w[i]),
                        decreases warned.len() - j,
                    {
                        out.push(Self::unused_warning(&warned[j]));
                        assert(names_of(warned@)[j as int] == warned@[j as int]@);
                        j = j + 1;
                    }
                    proof {
                        let all = reported_names(discourses@.subrange(0, k as int + 1));
                        assert(all == pre + w);
                        assert forall|i: int| 0 <= i < out@.len() implies is_unused_warning(#[trigger] out@[i], all[i]) by {
                            if i >= o0.len() {
                                let ii = i - o0.len();
                                assert(is_unused_warning(out@[o0.len() + ii], w[ii]));
                            } else {
                                assert(out@[i] == o0[i]);
                                assert(is_unused_warning(o0[i], pre[i]));
                            }
                        }
                    }
                }
                _ => {
                    proof {
                        assert(reported_names(discourses@.subrange(0, k as int + 1)) =~= pre);
                    }
                }
            }
            k = k + 1;
        }
        assert(discourses@.subrange(0, k as int) =~= discourses@);
        out
    }

    /// The variables a behavior defines and never uses, in order.
    fn unused_in_behavior(header: &HirBehaviorHeader, body: &HirExpression) -> (r: Vec<String>)
        ensures
            names_of(r@) == unused_names(*header, *body),
    {
        let mut defined = collect_arg_names(&header.args);
        collect_derived(body, &mut defined);
        let firsts = dedup_names(&defined);
        let mut used: Vec<String> = Vec::new();
        collect_uses(body, &mut used);
        assert(names_of(used@) =~= uses(*body));
        let ghost names = names_of(firsts@);
        let mut out: Vec<String> = Vec::new();
        let mut i: usize = 0;
        while i < firsts.len()
            invariant
                names == names_of(firsts@),
                names_of(used@) == uses(*body),
                i <= firsts@.len(),
                names_of(out@) == not_in(names.subrange(0, i as int), uses(*body)),
            decreases firsts.len() - i,
        {
            assert(names.subrange(0, i as int + 1).drop_last() =~= names.subrange(0, i as int));
            assert(names[i as int] == firsts@[i as int]@);
            if !has_name(&used, firsts[i].as_str()) {
                push_name(&mut out, &firsts[i]);
            }
            i = i + 1;
        }
        assert(names.subrange(0, i as int) =~= names);
        out
    }

    /// The warning about an unused variable, with a hint on silencing it.
    fn unused_warning(name: &String) -> (d: Diagnostic)
        ensures
            is_unused_warning(d, name@),
    {
        let message = concat3("Variable '", name.as_str(), "' is defined but never used");
        let hint = concat3("Remove the binding '", name.as_str(), "' or prefix it with '_' to silence this warning");
        Diagnostic::warning(Span::empty(), message).with_hint(hint)
    }
}

/// A walk over the HIR: each `visit_*` method has a default that does
/// nothing or visits the children, so an analysis overrides only the nodes it
/// cares about.
pub trait AnalyzerVisitor {
    fn visit_program(&mut self, discourses: &[HirDiscourse]) {
        let mut i: usize = 0;
        while i < discourses.len()
            decreases discourses.len() - i,
        {
            self.visit_discourse(&discourses[i]);
            i = i + 1;
        }
    }

    fn visit_discourse(&mut self, discourse: &HirDiscourse) {
        match discourse {
            HirDiscourse::Module { .. } => self.visit_module(discourse),
            HirDiscourse::Shape { .. } => self.visit_shape(discourse),
            HirDiscourse::Behavior { header, body } => {
                self.visit_behavior_header(header);
                self.visit_expression(body);
            }
        }
    }

    fn visit_module(&mut self, discourse: &HirDiscourse) {
    }

    fn visit_shape(&mut self, discourse: &HirDiscourse) {
    }

    fn visit_behavior_header(&mut self, header: &HirBehaviorHeader) {
    }

    /// Visits an expression; the default does not descend into its
    /// children (default methods cannot recurse here), so an analysis that
    /// needs them overrides this method.
    fn visit_expression(&mut self, expr: &HirExpression) {
    }

    fn visit_literal(&mut self, lit: &HirLiteral) {
    }

    fn visit_variable(&mut self, name: &str, is_consuming: bool) {
    }

    fn visit_call(&mut self, name: &str, args: &[HirExpression]) {
    }

    fn visit_derivation(&mut self, name: &str, typ: &OnuType, value: &HirExpression, body: &HirExpression) {
    }

    /// The diagnostics gathered so far.
    fn diagnostics(&self) -> &[Diagnostic];
}

impl SemanticAnalyzer {
    /// An analyzer with no diagnostics yet.
    pub fn new() -> (r: SemanticAnalyzer)
        ensures
            r.diagnostics_view().len() == 0,
    {
        SemanticAnalyzer { diagnostics: Vec::new() }
    }

    /// The diagnostics gathered so far.
    pub closed spec fn diagnostics_view(&self) -> Seq<Diagnostic> {
        self.diagnostics@
    }
}

impl AnalyzerVisitor for SemanticAnalyzer {
    /// For a behavior, adds a warning for each variable it defines and never
    /// uses; modules and shapes bind no variables.
    fn visit_discourse(&mut self, discourse: &HirDiscourse)
        ensures
            ({
                let w = reported_names(seq![*discourse]);
                let o = old(self).diagnostics_view();
                let f = final(self).diagnostics_view();
                &&& f.len() == o.len() + w.len()
                &&& forall|i: int| 0 <= i < o.len() ==> f[i] == o[i]
                &&& forall|i: int| 0 <= i < w.len() ==> is_unused_warning(#[trigger] f[o.len() + i], w[i])
            }),
    {
        proof {
            assert(seq![*discourse].drop_last() =~= Seq::<HirDiscourse>::empty());
            assert(reported_names(Seq::<HirDiscourse>::empty()) =~= Seq::<Seq<char>>::empty());
        }
        if let HirDiscourse::Behavior { header, body } = discourse {
            let warned = Self::unused_in_behavior(header, body);
            let ghost w = unused_names(*header, *body);
            assert(reported_names(seq![*discourse]) =~= w);
            let ghost o0 = self.diagnostics@;
            let mut j: usize = 0;
            while j < warned.len()
                invariant
                    names_of(warned@) == w,
                    j <= warned@.len(),
                    self.diagnostics@.len() == o0.len() + j,
                    forall|i: int| 0 <= i < o0.len() ==> self.diagnostics@[i] == o0[i],
                    forall|i: int| 0 <= i < j ==> is_unused_warning(#[trigger] self.diagnostics@[o0.len() + i], w[i]),
                decreases warned.len() - j,
            {
                self.diagnostics.push(Self::unused_warning(&warned[j]));
                assert(names_of(warned@)[j as int] == warned@[j as int]@);
                j = j + 1;
            }
        } else {
            assert(reported_names(seq![*discourse]) =~= Seq::<Seq<char>>::empty());
        }
    }

    fn diagnostics(&self) -> (r: &[Diagnostic])
        ensures
            r@ == self.diagnostics_view(),
    {
        self.diagnostics.as_slice()
    }
}

} // verus!
