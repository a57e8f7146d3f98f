//! Safety rules checked on the HIR before lowering to MIR:
//! S-1, a text literal changed in place; S-2, a memoized behavior called
//! more than once by another behavior; S-3, a text value bound without a
//! type label.

use vstd::prelude::*;
use crate::error::{Diagnostic, OnuError, Span};
use crate::hir::{HirDiscourse, HirExpression, HirLiteral};
use crate::analyzer::{dedup_names, first_occurrences, names_of};
use crate::text::{count_text, nat_digits, str_eq};
use crate::types::OnuType;

verus! {

/// The operations that change a text in place.
pub open spec fn is_mutating_op(name: Seq<char>) -> bool {
    name == "set-char"@ || name == "write-tape"@ || name == "inplace-set-char"@
}

/// The operations whose results are fresh, writable copies.
pub open spec fn is_copying_op(name: Seq<char>) -> bool {
    name == "joined-with"@ || name == "duplicated-as"@
}

/// The names bound to text literals (typed as text or, by default, as
/// integers), and the names bound to fresh copies, as the S-1 walk finds
/// them.
pub open spec fn bindings(e: HirExpression) -> (Seq<Seq<char>>, Seq<Seq<char>>)
    decreases e,
{
    match e {
        HirExpression::Derivation { name, typ, value, body } => {
            let v = match *value {
                HirExpression::Literal(HirLiteral::Text(_)) =>
                    if typ is Strings || typ is I64 { (seq![name@], Seq::empty()) } else { (Seq::empty(), Seq::empty()) },
                HirExpression::Call { name: f, args } => {
                    let inner = bindings_all(args@);
                    (inner.0, if is_copying_op(f@) { seq![name@] + inner.1 } else { inner.1 })
                },
                _ => bindings(*value),
            };
            let b = bindings(*body);
            (v.0 + b.0, v.1 + b.1)
        },
        HirExpression::Block(es) => bindings_all(es@),
        HirExpression::If { condition, then_branch, else_branch } => {
            let c = bindings(*condition);
            let t = bindings(*then_branch);
            let f = bindings(*else_branch);
            (c.0 + t.0 + f.0, c.1 + t.1 + f.1)
        },
        HirExpression::Call { args, .. } => bindings_all(args@),
        _ => (Seq::empty(), Seq::empty()),
    }
}

pub open spec fn bindings_all(es: Seq<HirExpression>) -> (Seq<Seq<char>>, Seq<Seq<char>>)
    decreases es,
{
    if es.len() == 0 {
        (Seq::empty(), Seq::empty())
    } else {
        let a = bindings_all(es.drop_last());
        let b = bindings(es.last());
        (a.0 + b.0, a.1 + b.1)
    }
}

/// The in-place changes of literal texts: the variable and the operation,
/// in order of the walk.
pub open spec fn mutations(e: HirExpression, lits: Seq<Seq<char>>, copies: Seq<Seq<char>>) -> Seq<(Seq<char>, Seq<char>)>
    decreases e,
{
    match e {
        HirExpression::Call { name, args } => {
            let own = if is_mutating_op(name@) && args@.len() > 0 && (args@[0] matches HirExpression::Variable(v, _)
                && lits.contains(v@) && !copies.contains(v@)) {
                seq![(args@[0]->Variable_0@, name@)]
            } else {
                Seq::empty()
            };
            own + mutations_all(args@, lits, copies)
        },
        HirExpression::Block(es) => mutations_all(es@, lits, copies),
        HirExpression::Derivation { value, body, .. } => mutations(*value, lits, copies) + mutations(*body, lits, copies),
        HirExpression::If { condition, then_branch, else_branch } =>
            mutations(*condition, lits, copies) + mutations(*then_branch, lits, copies) + mutations(*else_branch, lits, copies),
        _ => Seq::empty(),
    }
}

pub open spec fn mutations_all(es: Seq<HirExpression>, lits: Seq<Seq<char>>, copies: Seq<Seq<char>>) -> Seq<(Seq<char>, Seq<char>)>
    decreases es,
{
    if es.len() == 0 { Seq::empty() } else { mutations_all(es.drop_last(), lits, copies) + mutations(es.last(), lits, copies) }
}

/// The number of calls to `target` in an expression.
pub open spec fn call_count(e: HirExpression, target: Seq<char>) -> nat
    decreases e,
{
    match e {
        HirExpression::Call { name, args } => (if name@ == target { 1nat } else { 0nat }) + call_count_all(args@, target),
        HirExpression::Block(es) => call_count_all(es@, target),
        HirExpression::Derivation { value, body, .. } => call_count(*value, target) + call_count(*body, target),
        HirExpression::If { condition, then_branch, else_branch } =>
            call_count(*condition, target) + call_count(*then_branch, target) + call_count(*else_branch, target),
        HirExpression::Emit(inner) => call_count(*inner, target),
        HirExpression::Drop(inner) => call_count(*inner, target),
        HirExpression::Tuple(es) => call_count_all(es@, target),
        HirExpression::BinaryOp { left, right, .. } => call_count(*left, target) + call_count(*right, target),
        _ => 0,
    }
}

pub open spec fn call_count_all(es: Seq<HirExpression>, target: Seq<char>) -> nat
    decreases es,
{
    if es.len() == 0 { 0 } else { call_count_all(es.drop_last(), target) + call_count(es.last(), target) }
}

/// The derivations binding a text literal with the default integer type.
pub open spec fn untyped_texts(e: HirExpression) -> Seq<Seq<char>>
    decreases e,
{
    match e {
        HirExpression::Derivation { name, typ, value, body } => {
            let own = if (*value matches HirExpression::Literal(HirLiteral::Text(_))) && typ is I64 { seq![name@] } else { Seq::empty() };
            own + untyped_texts(*value) + untyped_texts(*body)
        },
        HirExpression::Block(es) => untyped_texts_all(es@),
        HirExpression::If { condition, then_branch, else_branch } =>
            untyped_texts(*condition) + untyped_texts(*then_branch) + untyped_texts(*else_branch),
        HirExpression::Call { args, .. } => untyped_texts_all(args@),
        HirExpression::Emit(inner) => untyped_texts(*inner),
        HirExpression::Drop(inner) => untyped_texts(*inner),
        _ => Seq::empty(),
    }
}

pub open spec fn untyped_texts_all(es: Seq<HirExpression>) -> Seq<Seq<char>>
    decreases es,
{
    if es.len() == 0 { Seq::empty() } else { untyped_texts_all(es.drop_last()) + untyped_texts(es.last()) }
}

/// A violation of a safety rule.
pub enum SafetyIssue {
    /// S-1: in `behavior`, the literal `var` is changed by `op`.
    LiteralMutation { behavior: Seq<char>, var: Seq<char>, op: Seq<char> },
    /// S-2: `behavior` calls the memoized `memo` `count` times.
    MemoRepeated { behavior: Seq<char>, memo: Seq<char>, count: nat },
    /// S-3: in `behavior`, `var` binds a text without a type label.
    UntypedText { behavior: Seq<char>, var: Seq<char> },
}

pub open spec fn literal_mutation_message(behavior: Seq<char>, var: Seq<char>, op: Seq<char>) -> Seq<char> {
    "═══ Onu Safety Rule S-1: Fixed Text Cannot Be Changed In Place ═══\n\
\n\
In behavior '"@
        + behavior
        + "': '"@
        + var
        + "' holds a fixed text value (a literal), \
and you are trying to change it using '"@
        + op
        + "'.\n\
\n\
  ✗  The problem:\n\
     Fixed texts are stored in the computer's read-only memory.\n\
     Any changes you make are silently thrown away — the text stays the same.\n\
     This can cause your program to loop forever or crash.\n\
\n\
  ✓  How to fix it:\n\
     Copy the text into writable memory first, then change the copy:\n\
\n\
     Before (broken):\n\
       derivation: "@
        + var
        + " derives-from a string \"...\"\n\
       "@
        + var
        + " utilizes "@
        + op
        + " ...\n\
\n\
     After (correct):\n\
       derivation: "@
        + var
        + " derives-from \"...\" joined-with \"\"\n\
       "@
        + var
        + " utilizes "@
        + op
        + " ...\n\
\n\
  (Technical: String literals compile to `private unnamed_addr constant` in LLVM IR.\n\
   LLVM's constant-folding pass treats all loads from this address as the original\n\
   value, discarding every write.  'joined-with \"\"' forces a bump-allocator copy\n\
   into @onu_arena (a mutable global), bypassing the constant.)\n\
\n\
  [S-1 | Pure Grammar Violation + KISS violation]"@
}

fn literal_mutation_message_text(behavior: &str, var: &str, op: &str) -> (r: String)
    ensures
        r@ == literal_mutation_message(behavior@, var@, op@),
{
    let mut m = String::from_str("═══ Onu Safety Rule S-1: Fixed Text Cannot Be Changed In Place ═══\n\
\n\
In behavior '");
    m.append(behavior);
    m.append("': '");
    m.append(var);
    m.append("' holds a fixed text value (a literal), \
and you are trying to change it using '");
    m.append(op);
    m.append("'.\n\
\n\
  ✗  The problem:\n\
     Fixed texts are stored in the computer's read-only memory.\n\
     Any changes you make are silently thrown away — the text stays the same.\n\
     This can cause your program to loop forever or crash.\n\
\n\
  ✓  How to fix it:\n\
     Copy the text into writable memory first, then change the copy:\n\
\n\
     Before (broken):\n\
       derivation: ");
    m.append(var);
    m.append(" derives-from a string \"...\"\n\
       ");
    m.append(var);
    m.append(" utilizes ");
    m.append(op);
    m.append(" ...\n\
\n\
     After (correct):\n\
       derivation: ");
    m.append(var);
    m.append(" derives-from \"...\" joined-with \"\"\n\
       ");
    m.append(var);
    m.append(" utilizes ");
    m.append(op);
    m.append(" ...\n\
\n\
  (Technical: String literals compile to `private unnamed_addr constant` in LLVM IR.\n\
   LLVM's constant-folding pass treats all loads from this address as the original\n\
   value, discarding every write.  'joined-with \"\"' forces a bump-allocator copy\n\
   into @onu_arena (a mutable global), bypassing the constant.)\n\
\n\
  [S-1 | Pure Grammar Violation + KISS violation]");
    m
}

pub open spec fn memo_repeated_message(behavior: Seq<char>, memo_fn: Seq<char>, count: Seq<char>) -> Seq<char> {
    "═══ Onu Safety Rule S-2: Speed-Up Behavior Called Too Many Times ═══\n\
\n\
In behavior '"@
        + behavior
        + "': '"@
        + memo_fn
        + "' (declared with 'with diminishing') is called \
"@
        + count
        + " times, but it can only be called once per program run.\n\
\n\
  ✗  The problem:\n\
     'with diminishing' reserves a large block of memory to remember previous\n\
     answers (memoization). It can only reserve this memory once.\n\
     Calling it a second time fills up that block and crashes the program.\n\
\n\
  ✓  How to fix it (choose one):\n\
\n\
     Option A — call it once and store the result:\n\
       derivation: result derives-from ... utilizes "@
        + memo_fn
        + " ...\n\
       -- use 'result' everywhere you need the value\n\
\n\
     Option B — if you don't need the speed-up, remove 'with diminishing':\n\
       the behavior "@
        + memo_fn
        + "\n\
       with no guaranteed termination:   ← remove 'with diminishing', add this\n\
\n\
  (Technical: HashMemoStrategy wraps '"@
        + memo_fn
        + "' in an entry function that\n\
   bump-allocates its entire hash table (~16 MB) from @onu_arena on the first\n\
   call. The arena is never freed. A second call moves the bump pointer past\n\
   the end of the arena, writing to unmapped memory and causing a segfault.\n\
   SOLID SRP violation: the function definition conflates 'compute value' with\n\
   'manage a fixed-size global memo table'.)\n\
\n\
  [S-2 | SOLID SRP+LSP violation + KISS violation]"@
}

fn memo_repeated_message_text(behavior: &str, memo_fn: &str, count: &str) -> (r: String)
    ensures
        r@ == memo_repeated_message(behavior@, memo_fn@, count@),
{
    let mut m = String::from_str("═══ Onu Safety Rule S-2: Speed-Up Behavior Called Too Many Times ═══\n\
\n\
In behavior '");
    m.append(behavior);
    m.append("': '");
    m.append(memo_fn);
    m.append("' (declared with 'with diminishing') is called \
");
    m.append(count);
    m.append(" times, but it can only be called once per program run.\n\
\n\
  ✗  The problem:\n\
     'with diminishing' reserves a large block of memory to remember previous\n\
     answers (memoization). It can only reserve this memory once.\n\
     Calling it a second time fills up that block and crashes the program.\n\
\n\
  ✓  How to fix it (choose one):\n\
\n\
     Option A — call it once and store the result:\n\
       derivation: result derives-from ... utilizes ");
    m.append(memo_fn);
    m.append(" ...\n\
       -- use 'result' everywhere you need the value\n\
\n\
     Option B — if you don't need the speed-up, remove 'with diminishing':\n\
       the behavior ");
    m.append(memo_fn);
    m.append("\n\
       with no guaranteed termination:   ← remove 'with diminishing', add this\n\
\n\
  (Technical: HashMemoStrategy wraps '");
    m.append(memo_fn);
    m.append("' in an entry function that\n\
   bump-allocates its entire hash table (~16 MB) from @onu_arena on the first\n\
   call. The arena is never freed. A second call moves the bump pointer past\n\
   the end of the arena, writing to unmapped memory and causing a segfault.\n\
   SOLID SRP violation: the function definition conflates 'compute value' with\n\
   'manage a fixed-size global memo table'.)\n\
\n\
  [S-2 | SOLID SRP+LSP violation + KISS violation]");
    m
}

pub open spec fn untyped_text_message(behavior: Seq<char>, var: Seq<char>) -> Seq<char> {
    "═══ Onu Safety Rule S-3: Text Value Needs a Type Label ═══\n\
\n\
In behavior '"@
        + behavior
        + "': the derivation '"@
        + var
        + "' holds a text value (\"...\") \
but has no type label.\n\
\n\
  ✗  The problem:\n\
     Without a label the compiler assumes '"@
        + var
        + "' is a number.\n\
     When the program runs, the text value will be broken — its length\n\
     and content will contain garbage numbers instead of real text.\n\
\n\
  ✓  How to fix it:\n\
     Add 'a string' after 'derives-from':\n\
\n\
     Before (broken):\n\
       derivation: "@
        + var
        + " derives-from \"...\"\n\
\n\
     After (correct):\n\
       derivation: "@
        + var
        + " derives-from a string \"...\"\n\
\n\
  (Technical: HIR lowering defaults to OnuType::I64 when no TypeInfo is present.\n\
   A Strings value is a 3-field struct { i64 len, ptr data, i1 is_dynamic }.\n\
   Allocating an i64 alloca for it packs all three fields into 8 bytes, silently\n\
   corrupting the length and data pointer at runtime.)\n\
\n\
  [S-3 | Pure Grammar Violation]"@
}

fn untyped_text_message_text(behavior: &str, var: &str) -> (r: String)
    ensures
        r@ == untyped_text_message(behavior@, var@),
{
    let mut m = String::from_str("═══ Onu Safety Rule S-3: Text Value Needs a Type Label ═══\n\
\n\
In behavior '");
    m.append(behavior);
    m.append("': the derivation '");
    m.append(var);
    m.append("' holds a text value (\"...\") \
but has no type label.\n\
\n\
  ✗  The problem:\n\
     Without a label the compiler assumes '");
    m.append(var);
    m.append("' is a number.\n\
     When the program runs, the text value will be broken — its length\n\
     and content will contain garbage numbers instead of real text.\n\
\n\
  ✓  How to fix it:\n\
     Add 'a string' after 'derives-from':\n\
\n\
     Before (broken):\n\
       derivation: ");
    m.append(var);
    m.append(" derives-from \"...\"\n\
\n\
     After (correct):\n\
       derivation: ");
    m.append(var);
    m.append(" derives-from a string \"...\"\n\
\n\
  (Technical: HIR lowering defaults to OnuType::I64 when no TypeInfo is present.\n\
   A Strings value is a 3-field struct { i64 len, ptr data, i1 is_dynamic }.\n\
   Allocating an i64 alloca for it packs all three fields into 8 bytes, silently\n\
   corrupting the length and data pointer at runtime.)\n\
\n\
  [S-3 | Pure Grammar Violation]");
    m
}

pub open spec fn single_call_message(behavior: Seq<char>, memo_fn: Seq<char>) -> Seq<char> {
    "In '"@
        + behavior
        + "': '"@
        + memo_fn
        + "' uses 'with diminishing' (memoization). \
It can only be called once per program run — calling it a second time will crash. \
This behavior calls it exactly once, so you are safe."@
}

fn single_call_message_text(behavior: &str, memo_fn: &str) -> (r: String)
    ensures
        r@ == single_call_message(behavior@, memo_fn@),
{
    let mut m = String::from_str("In '");
    m.append(behavior);
    m.append("': '");
    m.append(memo_fn);
    m.append("' uses 'with diminishing' (memoization). \
It can only be called once per program run — calling it a second time will crash. \
This behavior calls it exactly once, so you are safe.");
    m
}

pub open spec fn single_call_advice(memo_fn: Seq<char>) -> Seq<char> {
    "[S-2 advisory] HashMemoStrategy allocates the full 16 MB arena on the first call to '"@
        + memo_fn
        + "'. \
Only one top-level call per program run is allowed."@
}

fn single_call_advice_text(memo_fn: &str) -> (r: String)
    ensures
        r@ == single_call_advice(memo_fn@),
{
    let mut m = String::from_str("[S-2 advisory] HashMemoStrategy allocates the full 16 MB arena on the first call to '");
    m.append(memo_fn);
    m.append("'. \
Only one top-level call per program run is allowed.");
    m
}

/// A count, capped at `usize::MAX`.
pub open spec fn sat(c: nat) -> nat {
    if c <= usize::MAX { c } else { usize::MAX as nat }
}

/// The message of a violation.
pub open spec fn issue_message(i: SafetyIssue) -> Seq<char> {
    match i {
        SafetyIssue::LiteralMutation { behavior, var, op } => literal_mutation_message(behavior, var, op),
        SafetyIssue::MemoRepeated { behavior, memo, count } => memo_repeated_message(behavior, memo, nat_digits(count)),
        SafetyIssue::UntypedText { behavior, var } => untyped_text_message(behavior, var),
    }
}

/// The error reported for a violation.
pub open spec fn is_issue_error(e: OnuError, i: SafetyIssue) -> bool {
    e matches OnuError::GrammarViolation { message, span } && message@ == issue_message(i)
        && span == Span { start: 0, end: 0, line: 0, column: 0 }
}

/// The advisory for a behavior that calls a memoized behavior once.
pub open spec fn is_single_call_hint(d: Diagnostic, behavior: Seq<char>, memo: Seq<char>) -> bool {
    &&& d.severity == crate::error::Severity::Hint
    &&& d.span == Span { start: 0, end: 0, line: 0, column: 0 }
    &&& d.message@ == single_call_message(behavior, memo)
    &&& d.actionable_hint matches Some(h) && h@ == single_call_advice(memo)
}

/// The names of the memoized behaviors (those with diminishing
/// arguments), each once, in order of declaration.
pub open spec fn memo_decls(ds: Seq<HirDiscourse>) -> Seq<Seq<char>>
    decreases ds.len(),
{
    if ds.len() == 0 {
        Seq::empty()
    } else {
        memo_decls(ds.drop_last()) + match ds.last() {
            HirDiscourse::Behavior { header, .. } => if header.diminishing@.len() > 0 { seq![header.name@] } else { Seq::empty() },
            _ => Seq::empty(),
        }
    }
}

/// The S-2 violations of one behavior: each memoized behavior other than
/// itself that it calls more than once.
pub open spec fn memo_issues(b: Seq<char>, body: HirExpression, memos: Seq<Seq<char>>) -> Seq<SafetyIssue>
    decreases memos.len(),
{
    if memos.len() == 0 {
        Seq::empty()
    } else {
        let m = memos.last();
        let c = call_count(body, m);
        memo_issues(b, body, memos.drop_last()) + if m != b && c > 1 {
            seq![SafetyIssue::MemoRepeated { behavior: b, memo: m, count: sat(c) }]
        } else {
            Seq::empty()
        }
    }
}

/// The memoized behaviors other than itself that a behavior calls once.
pub open spec fn memo_hints(b: Seq<char>, body: HirExpression, memos: Seq<Seq<char>>) -> Seq<Seq<char>>
    decreases memos.len(),
{
    if memos.len() == 0 {
        Seq::empty()
    } else {
        let m = memos.last();
        memo_hints(b, body, memos.drop_last()) + if m != b && call_count(body, m) == 1 { seq![m] } else { Seq::empty() }
    }
}

/// All violations of one behavior: S-1, then S-2, then S-3.
pub open spec fn behavior_issues(b: Seq<char>, body: HirExpression, memos: Seq<Seq<char>>) -> Seq<SafetyIssue> {
    let bs = bindings(body);
    mutations(body, bs.0, bs.1).map_values(|p: (Seq<char>, Seq<char>)| SafetyIssue::LiteralMutation { behavior: b, var: p.0, op: p.1 })
        + memo_issues(b, body, memos)
        + untyped_texts(body).map_values(|v: Seq<char>| SafetyIssue::UntypedText { behavior: b, var: v })
}

/// The violations of all behaviors, in order.
pub open spec fn all_issues(ds: Seq<HirDiscourse>, memos: Seq<Seq<char>>) -> Seq<SafetyIssue>
    decreases ds.len(),
{
    if ds.len() == 0 {
        Seq::empty()
    } else {
        all_issues(ds.drop_last(), memos) + match ds.last() {
            HirDiscourse::Behavior { header, body } => behavior_issues(header.name@, body, memos),
            _ => Seq::empty(),
        }
    }
}

/// The single-call advisories of all behaviors: (caller, memoized).
pub open spec fn all_hints(ds: Seq<HirDiscourse>, memos: Seq<Seq<char>>) -> Seq<(Seq<char>, Seq<char>)>
    decreases ds.len(),
{
    if ds.len() == 0 {
        Seq::empty()
    } else {
        all_hints(ds.drop_last(), memos) + match ds.last() {
            HirDiscourse::Behavior { header, body } =>
                memo_hints(header.name@, body, memos).map_values(|m: Seq<char>| (header.name@, m)),
            _ => Seq::empty(),
        }
    }
}

fn is_mutating(name: &String) -> (r: bool)
    ensures
        r == is_mutating_op(name@),
{
    str_eq(name.as_str(), "set-char") || str_eq(name.as_str(), "write-tape") || str_eq(name.as_str(), "inplace-set-char")
}

fn is_copying(name: &String) -> (r: bool)
    ensures
        r == is_copying_op(name@),
{
    str_eq(name.as_str(), "joined-with") || str_eq(name.as_str(), "duplicated-as")
}

fn push_str_copy(out: &mut Vec<String>, s: &String)
    ensures
        names_of(final(out)@) == names_of(old(out)@).push(s@),
{
    let ghost before = out@;
    out.push(s.clone());
    assert(names_of(out@) =~= names_of(before).push(s@));
}

fn collect_bindings(e: &HirExpression, lits: &mut Vec<String>, copies: &mut Vec<String>)
    ensures
        names_of(final(lits)@) == names_of(old(lits)@) + bindings(*e).0,
        names_of(final(copies)@) == names_of(old(copies)@) + bindings(*e).1,
    decreases e,
{
    let ghost l0 = names_of(lits@);
    let ghost c0 = names_of(copies@);
    match e {
        HirExpression::Derivation { name, typ, value, body } => {
            match &**value {
                HirExpression::Literal(HirLiteral::Text(_)) => {
                    if typ.is_i64() || matches!(typ, OnuType::Strings) {
                        push_str_copy(lits, name);
                    }
                }
                HirExpression::Call { name: f, args } => {
                    if is_copying(f) {
                        push_str_copy(copies, name);
                    }
                    collect_bindings_all(args, lits, copies);
                }
                other => {
                    collect_bindings(other, lits, copies);
                }
            }
            collect_bindings(body, lits, copies);
            assert(names_of(lits@) =~= l0 + bindings(*e).0);
            assert(names_of(copies@) =~= c0 + bindings(*e).1);
        }
        HirExpression::Block(es) => collect_bindings_all(es, lits, copies),
        HirExpression::If { condition, then_branch, else_branch } => {
            collect_bindings(condition, lits, copies);
            collect_bindings(then_branch, lits, copies);
            collect_bindings(else_branch, lits, copies);
            assert(names_of(lits@) =~= l0 + bindings(*e).0);
            assert(names_of(copies@) =~= c0 + bindings(*e).1);
        }
        HirExpression::Call { args, .. } => collect_bindings_all(args, lits, copies),
        _ => {
            assert(names_of(lits@) =~= l0 + bindings(*e).0);
            assert(names_of(copies@) =~= c0 + bindings(*e).1);
        }
    }
}

fn collect_bindings_all(es: &Vec<HirExpression>, lits: &mut Vec<String>, copies: &mut Vec<String>)
    ensures
        names_of(final(lits)@) == names_of(old(lits)@) + bindings_all(es@).0,
        names_of(final(copies)@) == names_of(old(copies)@) + bindings_all(es@).1,
    decreases es,
{
    let ghost l0 = names_of(lits@);
    let ghost c0 = names_of(copies@);
    let mut i: usize = 0;
    while i < es.len()
        invariant
            i <= es@.len(),
            names_of(lits@) == l0 + bindings_all(es@.subrange(0, i as int)).0,
            names_of(copies@) == c0 + bindings_all(es@.subrange(0, i as int)).1,
        decreases es.len() - i,
    {
        assert(decreases_to!(es => es@[i as int]));
        assert(es@.subrange(0, i as int + 1).drop_last() =~= es@.subrange(0, i as int));
        collect_bindings(&es[i], lits, copies);
        assert(names_of(lits@) =~= l0 + bindings_all(es@.subrange(0, i as int + 1)).0);
        assert(names_of(copies@) =~= c0 + bindings_all(es@.subrange(0, i as int + 1)).1);
        i = i + 1;
    }
    assert(es@.subrange(0, i as int) =~= es@);
}

/// The characters of each pair of strings.
pub open spec fn pairs_of(v: Seq<(String, String)>) -> Seq<(Seq<char>, Seq<char>)> {
    v.map_values(|p: (String, String)| (p.0@, p.1@))
}

fn has_name(names: &Vec<String>, name: &String) -> (r: bool)
    ensures
        r == names_of(names@).contains(name@),
{
    let mut i: usize = 0;
    while i < names.len()
        invariant
            i <= names@.len(),
            forall|j: int| 0 <= j < i ==> names_of(names@)[j] != name@,
        decreases names.len() - i,
    {
        if str_eq(names[i].as_str(), name.as_str()) {
            assert(names_of(names@)[i as int] == name@);
            return true;
        }
        i = i + 1;
    }
    false
}

fn find_mutations(e: &HirExpression, lits: &Vec<String>, copies: &Vec<String>, out: &mut Vec<(String, String)>)
    ensures
        pairs_of(final(out)@) == pairs_of(old(out)@) + mutations(*e, names_of(lits@), names_of(copies@)),
    decreases e,
{
    let ghost o0 = pairs_of(out@);
    let ghost ls = names_of(lits@);
    let ghost cs = names_of(copies@);
    match e {
        HirExpression::Call { name, args } => {
            if is_mutating(name) && args.len() > 0 {
                if let HirExpression::Variable(v, _) = &args[0] {
                    if has_name(lits, v) && !has_name(copies, v) {
                        let ghost before = out@;
                        out.push((v.clone(), name.clone()));
                        assert(pairs_of(out@) =~= pairs_of(before).push((v@, name@)));
                    }
                }
            }
            let ghost mid = pairs_of(out@);
            find_mutations_all(args, lits, copies, out);
            assert(pairs_of(out@) =~= o0 + mutations(*e, ls, cs));
        }
        HirExpression::Block(es) => find_mutations_all(es, lits, copies, out),
        HirExpression::Derivation { value, body, .. } => {
            find_mutations(value, lits, copies, out);
            find_mutations(body, lits, copies, out);
            assert(pairs_of(out@) =~= o0 + mutations(*e, ls, cs));
        }
        HirExpression::If { condition, then_branch, else_branch } => {
            find_mutations(condition, lits, copies, out);
            find_mutations(then_branch, lits, copies, out);
            find_mutations(else_branch, lits, copies, out);
            assert(pairs_of(out@) =~= o0 + mutations(*e, ls, cs));
        }
        _ => {
            assert(pairs_of(out@) =~= o0 + mutations(*e, ls, cs));
        }
    }
}

fn find_mutations_all(es: &Vec<HirExpression>, lits: &Vec<String>, copies: &Vec<String>, out: &mut Vec<(String, String)>)
    ensures
        pairs_of(final(out)@) == pairs_of(old(out)@) + mutations_all(es@, names_of(lits@), names_of(copies@)),
    decreases es,
{
    let ghost o0 = pairs_of(out@);
    let ghost ls = names_of(lits@);
    let ghost cs = names_of(copies@);
    let mut i: usize = 0;
    while i < es.len()
        invariant
            i <= es@.len(),
            ls == names_of(lits@),
            cs == names_of(copies@),
            pairs_of(out@) == o0 + mutations_all(es@.subrange(0, i as int), ls, cs),
        decreases es.len() - i,
    {
        assert(decreases_to!(es => es@[i as int]));
        assert(es@.subrange(0, i as int + 1).drop_last() =~= es@.subrange(0, i as int));
        find_mutations(&es[i], lits, copies, out);
        assert(pairs_of(out@) =~= o0 + mutations_all(es@.subrange(0, i as int + 1), ls, cs));
        i = i + 1;
    }
    assert(es@.subrange(0, i as int) =~= es@);
}

fn sat_add(a: usize, b: usize) -> (r: usize)
    ensures
        r == if a + b <= usize::MAX { a + b } else { usize::MAX as int },
{
    if a > usize::MAX - b { usize::MAX } else { a + b }
}

fn count_calls(e: &HirExpression, target: &String) -> (r: usize)
    ensures
        r as nat == sat(call_count(*e, target@)),
    decreases e,
{
    match e {
        HirExpression::Call { name, args } => {
            let own: usize = if *name == *target { 1 } else { 0 };
            sat_add(own, count_calls_all(args, target))
        }
        HirExpression::Block(es) => count_calls_all(es, target),
        HirExpression::Derivation { value, body, .. } => sat_add(count_calls(value, target), count_calls(body, target)),
        HirExpression::If { condition, then_branch, else_branch } =>
            sat_add(sat_add(count_calls(condition, target), count_calls(then_branch, target)), count_calls(else_branch, target)),
        HirExpression::Emit(inner) => count_calls(inner, target),
        HirExpression::Drop(inner) => count_calls(inner, target),
        HirExpression::Tuple(es) => count_calls_all(es, target),
        HirExpression::BinaryOp { left, right, .. } => sat_add(count_calls(left, target), count_calls(right, target)),
        _ => 0,
    }
}

fn count_calls_all(es: &Vec<HirExpression>, target: &String) -> (r: usize)
    ensures
        r as nat == sat(call_count_all(es@, target@)),
    decreases es,
{
    let mut acc: usize = 0;
    let mut i: usize = 0;
    while i < es.len()
        invariant
            i <= es@.len(),
            acc as nat == sat(call_count_all(es@.subrange(0, i as int), target@)),
        decreases es.len() - i,
    {
        assert(decreases_to!(es => es@[i as int]));
        assert(es@.subrange(0, i as int + 1).drop_last() =~= es@.subrange(0, i as int));
        acc = sat_add(acc, count_calls(&es[i], target));
        i = i + 1;
    }
    assert(es@.subrange(0, i as int) =~= es@);
    acc
}

fn collect_untyped(e: &HirExpression, out: &mut Vec<String>)
    ensures
        names_of(final(out)@) == names_of(old(out)@) + untyped_texts(*e),
    decreases e,
{
    let ghost o0 = names_of(out@);
    match e {
        HirExpression::Derivation { name, typ, value, body } => {
            if typ.is_i64() && matches!(&**value, HirExpression::Literal(HirLiteral::Text(_))) {
                push_str_copy(out, name);
            }
            collect_untyped(value, out);
            collect_untyped(body, out);
            assert(names_of(out@) =~= o0 + untyped_texts(*e));
        }
        HirExpression::Block(es) => collect_untyped_all(es, out),
        HirExpression::If { condition, then_branch, else_branch } => {
            collect_untyped(condition, out);
            collect_untyped(then_branch, out);
            collect_untyped(else_branch, out);
            assert(names_of(out@) =~= o0 + untyped_texts(*e));
        }
        HirExpression::Call { args, .. } => collect_untyped_all(args, out),
        HirExpression::Emit(inner) => collect_untyped(inner, out),
        HirExpression::Drop(inner) => collect_untyped(inner, out),
        _ => {
            assert(names_of(out@) =~= o0 + untyped_texts(*e));
        }
    }
}

fn collect_untyped_all(es: &Vec<HirExpression>, out: &mut Vec<String>)
    ensures
        names_of(final(out)@) == names_of(old(out)@) + untyped_texts_all(es@),
    decreases es,
{
    let ghost o0 = names_of(out@);
    let mut i: usize = 0;
    while i < es.len()
        invariant
            i <= es@.len(),
            names_of(out@) == o0 + untyped_texts_all(es@.subrange(0, i as int)),
        decreases es.len() - i,
    {
        assert(decreases_to!(es => es@[i as int]));
        assert(es@.subrange(0, i as int + 1).drop_last() =~= es@.subrange(0, i as int));
        collect_untyped(&es[i], out);
        assert(names_of(out@) =~= o0 + untyped_texts_all(es@.subrange(0, i as int + 1)));
        i = i + 1;
    }
    assert(es@.subrange(0, i as int) =~= es@);
}

/// The errors reported for a list of violations, one for one.
pub open spec fn errors_match(errs: Seq<OnuError>, issues: Seq<SafetyIssue>) -> bool {
    errs.len() == issues.len() && forall|i: int| 0 <= i < errs.len() ==> is_issue_error(#[trigger] errs[i], issues[i])
}

/// The advisories for a list of (caller, memoized) pairs, one for one.
pub open spec fn hints_match(ds: Seq<Diagnostic>, hs: Seq<(Seq<char>, Seq<char>)>) -> bool {
    ds.len() == hs.len() && forall|i: int| 0 <= i < ds.len() ==> is_single_call_hint(#[trigger] ds[i], hs[i].0, hs[i].1)
}

proof fn lemma_errors_push(errs: Seq<OnuError>, issues: Seq<SafetyIssue>, e: OnuError, i: SafetyIssue)
    requires
        errors_match(errs, issues),
        is_issue_error(e, i),
    ensures
        errors_match(errs.push(e), issues.push(i)),
{
    assert forall|k: int| 0 <= k < errs.len() + 1 implies is_issue_error(#[trigger] errs.push(e)[k], issues.push(i)[k]) by {
        if k < errs.len() {
            assert(is_issue_error(errs[k], issues[k]));
        }
    }
}

proof fn lemma_hints_push(ds: Seq<Diagnostic>, hs: Seq<(Seq<char>, Seq<char>)>, d: Diagnostic, h: (Seq<char>, Seq<char>))
    requires
        hints_match(ds, hs),
        is_single_call_hint(d, h.0, h.1),
    ensures
        hints_match(ds.push(d), hs.push(h)),
{
    assert forall|k: int| 0 <= k < ds.len() + 1 implies is_single_call_hint(#[trigger] ds.push(d)[k], hs.push(h)[k].0, hs.push(h)[k].1) by {
        if k < ds.len() {
            assert(is_single_call_hint(ds[k], hs[k].0, hs[k].1));
        }
    }
}

fn issue_error(message: String) -> (e: OnuError)
    ensures
        e == (OnuError::GrammarViolation { message, span: Span { start: 0, end: 0, line: 0, column: 0 } }),
{
    OnuError::GrammarViolation { message, span: Span::empty() }
}

/// Adds the violations and advisories of one behavior.
fn check_behavior(
    name: &String,
    body: &HirExpression,
    memos: &Vec<String>,
    errs: &mut Vec<OnuError>,
    hints: &mut Vec<Diagnostic>,
    Ghost(issues): Ghost<Seq<SafetyIssue>>,
    Ghost(hs): Ghost<Seq<(Seq<char>, Seq<char>)>>,
)
    requires
        errors_match(old(errs)@, issues),
        hints_match(old(hints)@, hs),
    ensures
        errors_match(final(errs)@, issues + behavior_issues(name@, *body, names_of(memos@))),
        hints_match(final(hints)@, hs + memo_hints(name@, *body, names_of(memos@)).map_values(|m: Seq<char>| (name@, m))),
{
    let ghost ms = names_of(memos@);
    let mut lits: Vec<String> = Vec::new();
    let mut copies: Vec<String> = Vec::new();
    collect_bindings(body, &mut lits, &mut copies);
    assert(names_of(lits@) =~= bindings(*body).0);
    assert(names_of(copies@) =~= bindings(*body).1);
    let mut muts: Vec<(String, String)> = Vec::new();
    find_mutations(body, &lits, &copies, &mut muts);
    assert(pairs_of(muts@) =~= mutations(*body, bindings(*body).0, bindings(*body).1));
    let ghost s1 = pairs_of(muts@).map_values(|p: (Seq<char>, Seq<char>)| SafetyIssue::LiteralMutation { behavior: name@, var: p.0, op: p.1 });
    let mut k: usize = 0;
    while k < muts.len()
        invariant
            k <= muts@.len(),
            errors_match(errs@, issues + s1.subrange(0, k as int)),
            s1.len() == muts@.len(),
            forall|j: int| 0 <= j < muts@.len() ==> #[trigger] s1[j] == (SafetyIssue::LiteralMutation { behavior: name@, var: muts@[j].0@, op: muts@[j].1@ }),
        decreases muts.len() - k,
    {
        let m = literal_mutation_message_text(name.as_str(), muts[k].0.as_str(), muts[k].1.as_str());
        let e = issue_error(m);
        proof {
            assert(is_issue_error(e, s1[k as int]));
            lemma_errors_push(errs@, issues + s1.subrange(0, k as int), e, s1[k as int]);
            assert((issues + s1.subrange(0, k as int)).push(s1[k as int]) =~= issues + s1.subrange(0, k as int + 1));
        }
        errs.push(e);
        k = k + 1;
    }
    assert(s1.subrange(0, k as int) =~= s1);
    let ghost base_e = issues + s1;
    let ghost base_h = hs;
    let mut j: usize = 0;
    while j < memos.len()
        invariant
            j <= memos@.len(),
            ms == names_of(memos@),
            errors_match(errs@, base_e + memo_issues(name@, *body, ms.subrange(0, j as int))),
            hints_match(hints@, base_h + memo_hints(name@, *body, ms.subrange(0, j as int)).map_values(|m: Seq<char>| (name@, m))),
        decreases memos.len() - j,
    {
        let ghost sub1 = ms.subrange(0, j as int + 1);
        assert(sub1.drop_last() =~= ms.subrange(0, j as int));
        assert(sub1.last() == memos@[j as int]@);
        let m = &memos[j];
        if !str_eq(m.as_str(), name.as_str()) {
            let c = count_calls(body, m);
            if c > 1 {
                let msg = memo_repeated_message_text(name.as_str(), m.as_str(), count_text(c).as_str());
                let e = issue_error(msg);
                proof {
                    let iss = SafetyIssue::MemoRepeated { behavior: name@, memo: m@, count: sat(call_count(*body, m@)) };
                    assert(is_issue_error(e, iss));
                    lemma_errors_push(errs@, base_e + memo_issues(name@, *body, ms.subrange(0, j as int)), e, iss);
                    assert((base_e + memo_issues(name@, *body, ms.subrange(0, j as int))).push(iss)
                        =~= base_e + memo_issues(name@, *body, sub1));
                    assert(memo_hints(name@, *body, sub1) =~= memo_hints(name@, *body, ms.subrange(0, j as int)));
                }
                errs.push(e);
            } else if c == 1 {
                let d = Diagnostic::hint(Span::empty(), single_call_message_text(name.as_str(), m.as_str()))
                    .with_hint(single_call_advice_text(m.as_str()));
                proof {
                    let h = (name@, m@);
                    assert(is_single_call_hint(d, h.0, h.1));
                    let hs0 = memo_hints(name@, *body, ms.subrange(0, j as int)).map_values(|mm: Seq<char>| (name@, mm));
                    lemma_hints_push(hints@, base_h + hs0, d, h);
                    assert((base_h + hs0).push(h) =~= base_h + memo_hints(name@, *body, sub1).map_values(|mm: Seq<char>| (name@, mm)));
                    assert(memo_issues(name@, *body, sub1) =~= memo_issues(name@, *body, ms.subrange(0, j as int)));
                }
                hints.push(d);
            } else {
                proof {
                    assert(memo_issues(name@, *body, sub1) =~= memo_issues(name@, *body, ms.subrange(0, j as int)));
                    assert(memo_hints(name@, *body, sub1) =~= memo_hints(name@, *body, ms.subrange(0, j as int)));
                }
            }
        } else {
            proof {
                assert(memo_issues(name@, *body, sub1) =~= memo_issues(name@, *body, ms.subrange(0, j as int)));
                assert(memo_hints(name@, *body, sub1) =~= memo_hints(name@, *body, ms.subrange(0, j as int)));
            }
        }
        j = j + 1;
    }
    assert(ms.subrange(0, j as int) =~= ms);
    let mut untyped: Vec<String> = Vec::new();
    collect_untyped(body, &mut untyped);
    assert(names_of(untyped@) =~= untyped_texts(*body));
    let ghost base2 = base_e + memo_issues(name@, *body, ms);
    let ghost s3 = names_of(untyped@).map_values(|v: Seq<char>| SafetyIssue::UntypedText { behavior: name@, var: v });
    let mut k: usize = 0;
    while k < untyped.len()
        invariant
            k <= untyped@.len(),
            s3.len() == untyped@.len(),
            forall|q: int| 0 <= q < untyped@.len() ==> #[trigger] s3[q] == (SafetyIssue::UntypedText { behavior: name@, var: untyped@[q]@ }),
            errors_match(errs@, base2 + s3.subrange(0, k as int)),
        decreases untyped.len() - k,
    {
        let msg = untyped_text_message_text(name.as_str(), untyped[k].as_str());
        let e = issue_error(msg);
        proof {
            assert(is_issue_error(e, s3[k as int]));
            lemma_errors_push(errs@, base2 + s3.subrange(0, k as int), e, s3[k as int]);
            assert((base2 + s3.subrange(0, k as int)).push(s3[k as int]) =~= base2 + s3.subrange(0, k as int + 1));
        }
        errs.push(e);
        k = k + 1;
    }
    proof {
        assert(s3.subrange(0, k as int) =~= s3);
        assert(base2 + s3 =~= issues + behavior_issues(name@, *body, ms));
    }
}

/// Checks the safety rules on all behaviors. The first violation found is
/// the error (S-1, S-2 then S-3 within a behavior, behaviors in order);
/// without one, the advisories for behaviors that call a memoized behavior
/// exactly once.
pub fn run(discourses: &[HirDiscourse]) -> (r: Result<Vec<Diagnostic>, OnuError>)
    ensures
        ({
            let memos = first_occurrences(memo_decls(discourses@));
            let issues = all_issues(discourses@, memos);
            let hints = all_hints(discourses@, memos);
            &&& issues.len() > 0 ==> (r matches Err(e) && is_issue_error(e, issues[0]))
            &&& issues.len() == 0 ==> (r matches Ok(v) && hints_match(v@, hints))
        }),
{
    let ghost ds = discourses@;
    let mut decls: Vec<String> = Vec::new();
    let mut i: usize = 0;
    while i < discourses.len()
        invariant
            ds == discourses@,
            i <= ds.len(),
            names_of(decls@) == memo_decls(ds.subrange(0, i as int)),
        decreases discourses.len() - i,
    {
        assert(ds.subrange(0, i as int + 1).drop_last() =~= ds.subrange(0, i as int));
        if let HirDiscourse::Behavior { header, .. } = &discourses[i] {
            if header.diminishing.len() > 0 {
                push_str_copy(&mut decls, &header.name);
            }
        }
        proof {
            if let HirDiscourse::Behavior { header, .. } = ds[i as int] {
            } else {
                assert(memo_decls(ds.subrange(0, i as int + 1)) =~= memo_decls(ds.subrange(0, i as int)));
            }
        }
        i = i + 1;
    }
    assert(ds.subrange(0, i as int) =~= ds);
    let memos = dedup_names(&decls);
    let ghost ms = names_of(memos@);
    let mut errs: Vec<OnuError> = Vec::new();
    let mut hints: Vec<Diagnostic> = Vec::new();
    let mut i: usize = 0;
    while i < discourses.len()
        invariant
            ds == discourses@,
            i <= ds.len(),
            ms == names_of(memos@),
            errors_match(errs@, all_issues(ds.subrange(0, i as int), ms)),
            hints_match(hints@, all_hints(ds.subrange(0, i as int), ms)),
        decreases discourses.len() - i,
    {
        let ghost sub1 = ds.subrange(0, i as int + 1);
        assert(sub1.drop_last() =~= ds.subrange(0, i as int));
        assert(sub1.last() == ds[i as int]);
        match &discourses[i] {
            HirDiscourse::Behavior { header, body } => {
                check_behavior(&header.name, body, &memos, &mut errs, &mut hints,
                    Ghost(all_issues(ds.subrange(0, i as int), ms)), Ghost(all_hints(ds.subrange(0, i as int), ms)));
            }
            _ => {
                assert(all_issues(sub1, ms) =~= all_issues(ds.subrange(0, i as int), ms));
                assert(all_hints(sub1, ms) =~= all_hints(ds.subrange(0, i as int), ms));
            }
        }
        i = i + 1;
    }
    assert(ds.subrange(0, i as int) =~= ds);
    if errs.len() > 0 {
        let e = errs.remove(0);
        return Err(e);
    }
    Ok(hints)
}

} // verus!
