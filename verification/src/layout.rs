//! Layout: the indentation of each line start becomes explicit `Indent` and
//! `Dedent` tokens, as an indentation stack dictates. Blank lines and
//! comment lines are passed over.

use vstd::prelude::*;
use crate::lexer::{is_whitespace, spec_is_whitespace};
use crate::options::LogLevel;
use crate::text::chars_of;
use crate::tokens::Token;

verus! {

/// The index of the first line break of `s` at or after `i`, or `s.len()`.
pub open spec fn next_break(s: Seq<char>, i: int) -> int
    decreases s.len() - i,
{
    if i >= s.len() {
        s.len() as int
    } else if s[i] == '\n' {
        i
    } else {
        next_break(s, i + 1)
    }
}

/// The lines of a text: the runs of characters between line breaks, with no
/// empty last line after a final line break.
pub open spec fn lines_of(s: Seq<char>) -> Seq<Seq<char>>
    decreases s.len(),
{
    if s.len() == 0 {
        Seq::empty()
    } else {
        let k = next_break(s, 0);
        proof {
            lemma_next_break_bounds(s, 0);
        }
        if k >= s.len() {
            seq![s]
        } else {
            seq![s.subrange(0, k)] + lines_of(s.subrange(k + 1, s.len() as int))
        }
    }
}

/// A line without its leading white space.
pub open spec fn trim_start(line: Seq<char>) -> Seq<char>
    decreases line.len(),
{
    if line.len() > 0 && spec_is_whitespace(line[0]) {
        trim_start(line.drop_first())
    } else {
        line
    }
}

/// Whether a line is blank or a comment (`--` after its white space).
pub open spec fn skippable(line: Seq<char>) -> bool {
    let t = trim_start(line);
    t.len() == 0 || (t.len() >= 2 && t[0] == '-' && t[1] == '-')
}

/// The first line at or after `li` that is neither blank nor a comment, or
/// the number of lines.
pub open spec fn next_content(skips: Seq<bool>, li: int) -> int
    decreases skips.len() - li,
{
    if li >= skips.len() {
        li
    } else if skips[li] {
        next_content(skips, li + 1)
    } else {
        li
    }
}

/// The indentation stack after closing the levels deeper than `indent`,
/// never the bottom one, and how many were closed.
pub open spec fn close_levels(stack: Seq<usize>, indent: usize) -> (Seq<usize>, nat)
    decreases stack.len(),
{
    if stack.len() > 1 && indent < stack.last() {
        let (s, n) = close_levels(stack.drop_last(), indent);
        (s, n + 1)
    } else {
        (stack, 0)
    }
}

/// `n` `Dedent` tokens.
pub open spec fn dedents(n: nat) -> Seq<Token> {
    Seq::new(n, |i: int| Token::Dedent)
}

/// The state of the layout after some tokens: what was produced, the
/// indentation stack, and the next line to look at.
pub struct LayoutState {
    pub out: Seq<Token>,
    pub stack: Seq<usize>,
    pub line: int,
}

/// One token of the layout. A line start that reaches a line of content
/// opens a level (`Indent`) when deeper than the innermost one, closes
/// levels (`Dedent`s) when shallower, and is kept; one that finds no line of
/// content left is dropped. Any other token is kept.
pub open spec fn layout_step(st: LayoutState, tok: Token, skips: Seq<bool>) -> LayoutState {
    match tok {
        Token::LineStart(indent) => {
            let li = next_content(skips, st.line);
            if li < skips.len() {
                let cur = st.stack.last();
                if indent > cur {
                    LayoutState {
                        out: st.out + seq![Token::Indent, Token::LineStart(indent)],
                        stack: st.stack.push(indent),
                        line: li + 1,
                    }
                } else if indent < cur {
                    let (s, n) = close_levels(st.stack, indent);
                    LayoutState { out: st.out + dedents(n) + seq![Token::LineStart(indent)], stack: s, line: li + 1 }
                } else {
                    LayoutState { out: st.out.push(Token::LineStart(indent)), stack: st.stack, line: li + 1 }
                }
            } else {
                LayoutState { out: st.out, stack: st.stack, line: li }
            }
        },
        _ => LayoutState { out: st.out.push(tok), stack: st.stack, line: st.line },
    }
}

/// The layout state after the tokens `toks`.
pub open spec fn layout_run(toks: Seq<Token>, skips: Seq<bool>, stack: Seq<usize>) -> LayoutState
    decreases toks.len(),
{
    if toks.len() == 0 {
        LayoutState { out: Seq::empty(), stack, line: 0 }
    } else {
        layout_step(layout_run(toks.drop_last(), skips, stack), toks.last(), skips)
    }
}

/// The whole layout of `toks` over the lines of `source`, starting from the
/// indentation stack `stack`: the run, then a `Dedent` for each level still
/// open above the bottom one.
pub open spec fn layout_of(source: Seq<char>, toks: Seq<Token>, stack: Seq<usize>) -> Seq<Token> {
    let st = layout_run(toks, lines_of(source).map_values(|l: Seq<char>| skippable(l)), stack);
    st.out + dedents((st.stack.len() - 1) as nat)
}

pub proof fn lemma_next_break_bounds(s: Seq<char>, i: int)
    requires
        0 <= i <= s.len(),
    ensures
        i <= next_break(s, i) <= s.len(),
        next_break(s, i) < s.len() ==> s[next_break(s, i)] == '\n',
        forall|j: int| i <= j < next_break(s, i) ==> s[j] != '\n',
    decreases s.len() - i,
{
    if i < s.len() && s[i] != '\n' {
        lemma_next_break_bounds(s, i + 1);
    }
}

proof fn lemma_next_break_at(s: Seq<char>, i: int, k: int)
    requires
        0 <= i <= k <= s.len(),
        k == s.len() || s[k] == '\n',
        forall|j: int| i <= j < k ==> s[j] != '\n',
    ensures
        next_break(s, i) == k,
    decreases k - i,
{
    if i < k {
        lemma_next_break_at(s, i + 1, k);
    }
}

proof fn lemma_next_break_shift(s: Seq<char>, start: int, k: int)
    requires
        0 <= start <= k <= s.len(),
        k == s.len() || s[k] == '\n',
        forall|j: int| start <= j < k ==> s[j] != '\n',
    ensures
        next_break(s.subrange(start, s.len() as int), 0) == k - start,
{
    let t = s.subrange(start, s.len() as int);
    lemma_next_break_at(t, 0, k - start);
}

/// The lines of a text, as vectors of characters.
pub fn source_lines(source: &str) -> (r: Vec<Vec<char>>)
    ensures
        r@.len() == lines_of(source@).len(),
        forall|i: int| 0 <= i < r@.len() ==> #[trigger] r@[i]@ == lines_of(source@)[i],
{
    let cs = chars_of(source);
    let ghost s = source@;
    let mut out: Vec<Vec<char>> = Vec::new();
    let ghost mut done: Seq<Seq<char>> = Seq::empty();
    let mut cur: Vec<char> = Vec::new();
    let mut start: usize = 0;
    let mut i: usize = 0;
    assert(s.subrange(0, s.len() as int) =~= s);
    while i < cs.len()
        invariant
            cs@ == s,
            start <= i <= s.len(),
            cur@ == s.subrange(start as int, i as int),
            forall|j: int| start <= j < i ==> s[j] != '\n',
            out@.len() == done.len(),
            forall|j: int| 0 <= j < out@.len() ==> #[trigger] out@[j]@ == done[j],
            lines_of(s) == done + lines_of(s.subrange(start as int, s.len() as int)),
        decreases s.len() - i,
    {
        if cs[i] == '\n' {
            proof {
                let t = s.subrange(start as int, s.len() as int);
                lemma_next_break_shift(s, start as int, i as int);
                assert(t.len() > 0);
                assert(t.subrange(0, i - start) =~= s.subrange(start as int, i as int));
                assert(t.subrange(i - start + 1, t.len() as int) =~= s.subrange(i + 1, s.len() as int));
                assert(lines_of(t) == seq![s.subrange(start as int, i as int)] + lines_of(s.subrange(i + 1, s.len() as int)));
                done = done.push(cur@);
                assert(lines_of(s) =~= done + lines_of(s.subrange(i + 1, s.len() as int)));
            }
            let mut line: Vec<char> = Vec::new();
            std::mem::swap(&mut line, &mut cur);
            out.push(line);
            start = i + 1;
        } else {
            cur.push(cs[i]);
            proof {
                assert(cur@ =~= s.subrange(start as int, i + 1));
            }
        }
        i = i + 1;
    }
    proof {
        let t = s.subrange(start as int, s.len() as int);
        if start < s.len() {
            lemma_next_break_shift(s, start as int, s.len() as int);
            assert(t =~= cur@);
            done = done.push(cur@);
            assert(lines_of(s) =~= done);
        } else {
            assert(t.len() == 0);
            assert(lines_of(s) =~= done);
        }
    }
    if start < cs.len() {
        out.push(cur);
    }
    out
}

/// Whether a line is blank or a comment.
pub fn line_skippable(line: &Vec<char>) -> (r: bool)
    ensures
        r == skippable(line@),
{
    let mut i: usize = 0;
    assert(line@.subrange(0, line@.len() as int) =~= line@);
    while i < line.len() && is_whitespace(line[i])
        invariant
            i <= line@.len(),
            trim_start(line@) == trim_start(line@.subrange(i as int, line@.len() as int)),
        decreases line.len() - i,
    {
        proof {
            let t = line@.subrange(i as int, line@.len() as int);
            assert(t.drop_first() =~= line@.subrange(i + 1, line@.len() as int));
        }
        i = i + 1;
    }
    proof {
        let t = line@.subrange(i as int, line@.len() as int);
        assert(trim_start(t) == t);
    }
    i == line.len() || (i + 1 < line.len() && line[i] == '-' && line[i + 1] == '-')
}

/// The layout stage: keeps the indentation stack between calls.
pub struct LayoutService {
    indent_stack: Vec<usize>,
    pub log_level: LogLevel,
}

impl LayoutService {
    /// The indentation stack.
    pub closed spec fn stack(&self) -> Seq<usize> {
        self.indent_stack@
    }

    /// The level of detail of its reports.
    pub closed spec fn level(&self) -> LogLevel {
        self.log_level
    }

    /// The stack always holds its bottom level.
    pub closed spec fn wf(&self) -> bool {
        self.indent_stack@.len() >= 1
    }

    /// A layout service with only the outermost level, 0, open.
    pub fn new(log_level: LogLevel) -> (r: LayoutService)
        ensures
            r.wf(),
            r.stack() == seq![0usize],
            r.level() == log_level,
    {
        LayoutService { indent_stack: vec![0], log_level }
    }

    /// Makes the indentation of `tokens` explicit, looking at the lines of
    /// `source` to pass over blank and comment lines; afterwards only the
    /// bottom level stays open.
    pub fn process(&mut self, source: &str, tokens: Vec<Token>) -> (r: Vec<Token>)
        requires
            old(self).wf(),
        ensures
            final(self).wf(),
            r@ == layout_of(source@, tokens@, old(self).stack()),
            final(self).stack() == seq![old(self).stack()[0]],
            final(self).level() == old(self).level(),
    {
        let lines = source_lines(source);
        let mut skips: Vec<bool> = Vec::new();
        let mut j: usize = 0;
        while j < lines.len()
            invariant
                j <= lines@.len(),
                lines@.len() == lines_of(source@).len(),
                forall|i: int| 0 <= i < lines@.len() ==> #[trigger] lines@[i]@ == lines_of(source@)[i],
                skips@.len() == j,
                forall|i: int| 0 <= i < j ==> skips@[i] == skippable(#[trigger] lines_of(source@)[i]),
            decreases lines.len() - j,
        {
            skips.push(line_skippable(&lines[j]));
            j = j + 1;
        }
        let ghost sk = lines_of(source@).map_values(|l: Seq<char>| skippable(l));
        assert(skips@ =~= sk);
        let ghost stack0 = self.indent_stack@;
        let ghost toks = tokens@;
        let mut result: Vec<Token> = Vec::new();
        let mut line_idx: usize = 0;
        let mut tokens = tokens;
        let mut k: usize = 0;
        while k < tokens.len()
            invariant
                tokens@.len() == toks.len(),
                k <= toks.len(),
                forall|m: int| k <= m < toks.len() ==> tokens@[m] == toks[m],
                skips@ == sk,
                lines@.len() == sk.len(),
                self.indent_stack@.len() >= 1,
                self.indent_stack@[0] == stack0[0],
                self.log_level == old(self).log_level,
                line_idx <= skips@.len(),
                ({
                    let st = layout_run(toks.subrange(0, k as int), sk, stack0);
                    &&& result@ == st.out
                    &&& self.indent_stack@ == st.stack
                    &&& line_idx as int == st.line
                }),
            decreases toks.len() - k,
        {
            proof {
                assert(toks.subrange(0, k + 1).drop_last() =~= toks.subrange(0, k as int));
            }
            let ghost st = layout_run(toks.subrange(0, k as int), sk, stack0);
            let ghost stn = layout_step(st, toks[k as int], sk);
            assert(layout_run(toks.subrange(0, k + 1), sk, stack0) == stn);
            let mut token = Token::Indent;
            std::mem::swap(&mut token, &mut tokens[k]);
            match token {
                Token::LineStart(indent) => {
                    while line_idx < lines.len() && skips[line_idx]
                        invariant
                            skips@ == sk,
                            lines@.len() == skips@.len(),
                            line_idx <= skips@.len(),
                            next_content(sk, line_idx as int) == next_content(sk, st.line),
                        decreases skips.len() - line_idx,
                    {
                        line_idx = line_idx + 1;
                    }
                    assert(line_idx as int == next_content(sk, st.line));
                    if line_idx < lines.len() {
                        let cur = self.indent_stack[self.indent_stack.len() - 1];
                        assert(cur == st.stack.last());
                        if indent > cur {
                            self.indent_stack.push(indent);
                            result.push(Token::Indent);
                            result.push(Token::LineStart(indent));
                            assert(result@ =~= stn.out);
                        } else if indent < cur {
                            let ghost s0 = self.indent_stack@;
                            let ghost r0 = result@;
                            let ghost sf = close_levels(s0, indent).0;
                            let ghost nf = close_levels(s0, indent).1;
                            let ghost mut n: nat = 0;
                            while self.indent_stack.len() > 1 && indent < self.indent_stack[self.indent_stack.len() - 1]
                                invariant
                                    self.indent_stack@.len() >= 1,
                                    self.indent_stack@[0] == stack0[0],
                                    close_levels(self.indent_stack@, indent).0 == sf,
                                    close_levels(self.indent_stack@, indent).1 + n == nf,
                                    result@ == r0 + dedents(n),
                                    self.log_level == old(self).log_level,
                                decreases self.indent_stack@.len(),
                            {
                                let ghost before = self.indent_stack@;
                                self.indent_stack.pop();
                                result.push(Token::Dedent);
                                proof {
                                    assert(self.indent_stack@ =~= before.drop_last());
                                    n = n + 1;
                                    assert(result@ =~= r0 + dedents(n));
                                }
                            }
                            result.push(Token::LineStart(indent));
                            assert(result@ =~= stn.out);
                        } else {
                            result.push(Token::LineStart(indent));
                        }
                        line_idx = line_idx + 1;
                    }
                },
                other => {
                    result.push(other);
                },
            }
            k = k + 1;
        }
        proof {
            assert(toks.subrange(0, toks.len() as int) =~= toks);
        }
        let ghost before_final = result@;
        let ghost open_levels = (self.indent_stack@.len() - 1) as nat;
        let ghost mut n: nat = 0;
        while self.indent_stack.len() > 1
            invariant
                self.indent_stack@.len() >= 1,
                self.indent_stack@[0] == stack0[0],
                self.indent_stack@.len() - 1 + n == open_levels,
                result@ == before_final + dedents(n),
                self.log_level == old(self).log_level,
            decreases self.indent_stack@.len(),
        {
            self.indent_stack.pop();
            result.push(Token::Dedent);
            proof {
                n = n + 1;
                assert(result@ =~= before_final + dedents(n));
            }
        }
        proof {
            assert(self.indent_stack@ =~= seq![stack0[0]]);
        }
        result
    }
}

/// The number of tokens of a list that open an indentation level.
pub open spec fn indent_count(s: Seq<Token>) -> nat
    decreases s.len(),
{
    if s.len() == 0 {
        0
    } else {
        indent_count(s.drop_last()) + if s.last() is Indent { 1nat } else { 0nat }
    }
}

/// The number of tokens of a list that close an indentation level.
pub open spec fn dedent_count(s: Seq<Token>) -> nat
    decreases s.len(),
{
    if s.len() == 0 {
        0
    } else {
        dedent_count(s.drop_last()) + if s.last() is Dedent { 1nat } else { 0nat }
    }
}

proof fn lemma_counts_add(a: Seq<Token>, b: Seq<Token>)
    ensures
        indent_count(a + b) == indent_count(a) + indent_count(b),
        dedent_count(a + b) == dedent_count(a) + dedent_count(b),
    decreases b.len(),
{
    if b.len() == 0 {
        assert(a + b =~= a);
    } else {
        assert((a + b).drop_last() =~= a + b.drop_last());
        assert((a + b).last() == b.last());
        lemma_counts_add(a, b.drop_last());
    }
}

proof fn lemma_dedents_count(n: nat)
    ensures
        indent_count(dedents(n)) == 0,
        dedent_count(dedents(n)) == n,
    decreases n,
{
    if n > 0 {
        assert(dedents(n).drop_last() =~= dedents((n - 1) as nat));
        lemma_dedents_count((n - 1) as nat);
    } else {
        assert(dedents(n) =~= Seq::<Token>::empty());
    }
}

proof fn lemma_close_levels_len(stack: Seq<usize>, indent: usize)
    requires
        stack.len() >= 1,
    ensures
        close_levels(stack, indent).0.len() + close_levels(stack, indent).1 == stack.len(),
        close_levels(stack, indent).0.len() >= 1,
    decreases stack.len(),
{
    if stack.len() > 1 && indent < stack.last() {
        lemma_close_levels_len(stack.drop_last(), indent);
    }
}

/// Every level the run opens is either closed in its output or still on its
/// stack.
proof fn lemma_run_balance(toks: Seq<Token>, skips: Seq<bool>, stack: Seq<usize>)
    requires
        stack.len() >= 1,
        forall|i: int| 0 <= i < toks.len() ==> !(#[trigger] toks[i] is Indent) && !(toks[i] is Dedent),
    ensures
        layout_run(toks, skips, stack).stack.len() >= 1,
        indent_count(layout_run(toks, skips, stack).out) + stack.len()
            == dedent_count(layout_run(toks, skips, stack).out) + layout_run(toks, skips, stack).stack.len(),
    decreases toks.len(),
{
    if toks.len() > 0 {
        let prev = toks.drop_last();
        assert forall|i: int| 0 <= i < prev.len() implies !(#[trigger] prev[i] is Indent) && !(prev[i] is Dedent) by {
            assert(prev[i] == toks[i]);
        }
        lemma_run_balance(prev, skips, stack);
        let st = layout_run(prev, skips, stack);
        let tok = toks.last();
        assert(!(toks[toks.len() - 1] is Indent) && !(toks[toks.len() - 1] is Dedent));
        match tok {
            Token::LineStart(indent) => {
                let li = next_content(skips, st.line);
                if li < skips.len() {
                    let cur = st.stack.last();
                    if indent > cur {
                        lemma_counts_add(st.out, seq![Token::Indent, Token::LineStart(indent)]);
                        let two = seq![Token::Indent, Token::LineStart(indent)];
                        assert(two.drop_last() =~= seq![Token::Indent]);
                        assert(seq![Token::Indent].drop_last() =~= Seq::<Token>::empty());
                        assert(indent_count(Seq::<Token>::empty()) == 0 && dedent_count(Seq::<Token>::empty()) == 0);
                        assert(indent_count(seq![Token::Indent]) == 1 && dedent_count(seq![Token::Indent]) == 0);
                        assert(indent_count(two) == 1 && dedent_count(two) == 0);
                        assert(layout_run(toks, skips, stack).stack == st.stack.push(indent));
                    } else if indent < cur {
                        let (s, n) = close_levels(st.stack, indent);
                        lemma_close_levels_len(st.stack, indent);
                        lemma_dedents_count(n);
                        lemma_counts_add(st.out, dedents(n));
                        lemma_counts_add(st.out + dedents(n), seq![Token::LineStart(indent)]);
                        assert(seq![Token::LineStart(indent)].drop_last() =~= Seq::<Token>::empty());
                        assert(indent_count(Seq::<Token>::empty()) == 0 && dedent_count(Seq::<Token>::empty()) == 0);
                        assert(indent_count(seq![Token::LineStart(indent)]) == 0);
                        assert(dedent_count(seq![Token::LineStart(indent)]) == 0);
                    } else {
                        assert(st.out.push(Token::LineStart(indent)).drop_last() =~= st.out);
                    }
                }
            },
            _ => {
                assert(st.out.push(tok).drop_last() =~= st.out);
            },
        }
    }
}

/// Layout balances indentation: from a single base level, and on tokens
/// that open and close no level themselves, every level it opens it also
/// closes.
pub proof fn law_layout_balanced(source: Seq<char>, toks: Seq<Token>, base: usize)
    requires
        forall|i: int| 0 <= i < toks.len() ==> !(#[trigger] toks[i] is Indent) && !(toks[i] is Dedent),
    ensures
        indent_count(layout_of(source, toks, seq![base])) == dedent_count(layout_of(source, toks, seq![base])),
{
    let skips = lines_of(source).map_values(|l: Seq<char>| skippable(l));
    lemma_run_balance(toks, skips, seq![base]);
    let st = layout_run(toks, skips, seq![base]);
    lemma_dedents_count((st.stack.len() - 1) as nat);
    lemma_counts_add(st.out, dedents((st.stack.len() - 1) as nat));
}

/// The tokens of a list that are not layout tokens (`Indent`, `Dedent`,
/// line starts), in order.
pub open spec fn content_of(s: Seq<Token>) -> Seq<Token>
    decreases s.len(),
{
    if s.len() == 0 {
        Seq::empty()
    } else if s.last() is Indent || s.last() is Dedent || s.last() is LineStart {
        content_of(s.drop_last())
    } else {
        content_of(s.drop_last()).push(s.last())
    }
}

/// No prefix of the list closes more levels than it opened.
pub open spec fn prefix_balanced(s: Seq<Token>) -> bool {
    forall|k: int| 0 <= k <= s.len() ==> dedent_count(#[trigger] s.take(k)) <= indent_count(s.take(k))
}

proof fn lemma_content_add(a: Seq<Token>, b: Seq<Token>)
    ensures
        content_of(a + b) == content_of(a) + content_of(b),
    decreases b.len(),
{
    if b.len() == 0 {
        assert(a + b =~= a);
        assert(content_of(a) + content_of(b) =~= content_of(a));
    } else {
        assert((a + b).drop_last() =~= a + b.drop_last());
        assert((a + b).last() == b.last());
        lemma_content_add(a, b.drop_last());
        assert(content_of(a) + content_of(b.drop_last()).push(b.last()) =~= (content_of(a) + content_of(b.drop_last())).push(b.last()));
    }
}

proof fn lemma_dedents_content(n: nat)
    ensures
        content_of(dedents(n)) == Seq::<Token>::empty(),
    decreases n,
{
    if n > 0 {
        assert(dedents(n).drop_last() =~= dedents((n - 1) as nat));
        lemma_dedents_content((n - 1) as nat);
    } else {
        assert(dedents(n) =~= Seq::<Token>::empty());
    }
}

/// The run keeps the content of its tokens.
proof fn lemma_run_content(toks: Seq<Token>, skips: Seq<bool>, stack: Seq<usize>)
    ensures
        content_of(layout_run(toks, skips, stack).out) == content_of(toks),
    decreases toks.len(),
{
    if toks.len() > 0 {
        let prev = toks.drop_last();
        lemma_run_content(prev, skips, stack);
        let st = layout_run(prev, skips, stack);
        let tok = toks.last();
        match tok {
            Token::LineStart(indent) => {
                let li = next_content(skips, st.line);
                if li < skips.len() {
                    let cur = st.stack.last();
                    let one = seq![Token::LineStart(indent)];
                    assert(one.drop_last() =~= Seq::<Token>::empty());
                    assert(content_of(Seq::<Token>::empty()) =~= Seq::<Token>::empty());
                    assert(content_of(one) =~= Seq::<Token>::empty());
                    if indent > cur {
                        let two = seq![Token::Indent, Token::LineStart(indent)];
                        assert(two.drop_last() =~= seq![Token::Indent]);
                        assert(seq![Token::Indent].drop_last() =~= Seq::<Token>::empty());
                        assert(content_of(seq![Token::Indent]) =~= Seq::<Token>::empty());
                        assert(content_of(two) =~= Seq::<Token>::empty());
                        lemma_content_add(st.out, two);
                        assert(st.out + Seq::<Token>::empty() =~= st.out);
                    } else if indent < cur {
                        let (s, n) = close_levels(st.stack, indent);
                        lemma_dedents_content(n);
                        lemma_content_add(st.out, dedents(n));
                        lemma_content_add(st.out + dedents(n), one);
                        assert(st.out + Seq::<Token>::empty() =~= st.out);
                        assert(content_of(st.out) + Seq::<Token>::empty() =~= content_of(st.out));
                    } else {
                        assert(st.out.push(Token::LineStart(indent)).drop_last() =~= st.out);
                    }
                }
            },
            _ => {
                assert(st.out.push(tok).drop_last() =~= st.out);
            },
        }
    }
}

/// Layout keeps every token that is not a layout token, in order: with its
/// `Indent`, `Dedent` and line-start tokens taken out, the output is the
/// input with its line starts taken out.
pub proof fn law_layout_keeps_content(source: Seq<char>, toks: Seq<Token>, base: usize)
    ensures
        content_of(layout_of(source, toks, seq![base])) == content_of(toks),
{
    let skips = lines_of(source).map_values(|l: Seq<char>| skippable(l));
    let st = layout_run(toks, skips, seq![base]);
    lemma_run_content(toks, skips, seq![base]);
    lemma_dedents_content((st.stack.len() - 1) as nat);
    lemma_content_add(st.out, dedents((st.stack.len() - 1) as nat));
    assert(content_of(st.out) + Seq::<Token>::empty() =~= content_of(st.out));
}

proof fn lemma_take_counts(s: Seq<Token>, k: int)
    requires
        0 <= k <= s.len(),
    ensures
        dedent_count(s.take(k)) <= dedent_count(s),
        indent_count(s.take(k)) <= indent_count(s),
{
    assert(s =~= s.take(k) + s.skip(k));
    lemma_counts_add(s.take(k), s.skip(k));
}

proof fn lemma_append_balanced(a: Seq<Token>, b: Seq<Token>)
    requires
        prefix_balanced(a),
        dedent_count(a) + dedent_count(b) <= indent_count(a),
    ensures
        prefix_balanced(a + b),
{
    let c = a + b;
    assert forall|k: int| 0 <= k <= c.len() implies dedent_count(#[trigger] c.take(k)) <= indent_count(c.take(k)) by {
        if k <= a.len() {
            assert(c.take(k) =~= a.take(k));
        } else {
            let j = k - a.len();
            assert(c.take(k) =~= a + b.take(j));
            lemma_counts_add(a, b.take(j));
            lemma_take_counts(b, j);
        }
    }
}

/// The run from a single level never closes more levels than it opened.
proof fn lemma_run_prefix(toks: Seq<Token>, skips: Seq<bool>, base: usize)
    requires
        forall|i: int| 0 <= i < toks.len() ==> !(#[trigger] toks[i] is Indent) && !(toks[i] is Dedent),
    ensures
        prefix_balanced(layout_run(toks, skips, seq![base]).out),
    decreases toks.len(),
{
    if toks.len() == 0 {
        assert forall|k: int| 0 <= k <= 0 implies dedent_count(#[trigger] Seq::<Token>::empty().take(k)) <= indent_count(Seq::<Token>::empty().take(k)) by {
            assert(Seq::<Token>::empty().take(k) =~= Seq::<Token>::empty());
        }
    } else {
        let prev = toks.drop_last();
        assert forall|i: int| 0 <= i < prev.len() implies !(#[trigger] prev[i] is Indent) && !(prev[i] is Dedent) by {
            assert(prev[i] == toks[i]);
        }
        lemma_run_prefix(prev, skips, base);
        lemma_run_balance(prev, skips, seq![base]);
        let st = layout_run(prev, skips, seq![base]);
        let tok = toks.last();
        assert(!(toks[toks.len() - 1] is Indent) && !(toks[toks.len() - 1] is Dedent));
        match tok {
            Token::LineStart(indent) => {
                let li = next_content(skips, st.line);
                if li < skips.len() {
                    let cur = st.stack.last();
                    let one = seq![Token::LineStart(indent)];
                    assert(one.drop_last() =~= Seq::<Token>::empty());
                    assert(dedent_count(Seq::<Token>::empty()) == 0);
                    assert(dedent_count(one) == 0);
                    if indent > cur {
                        let two = seq![Token::Indent, Token::LineStart(indent)];
                        assert(two.drop_last() =~= seq![Token::Indent]);
                        assert(seq![Token::Indent].drop_last() =~= Seq::<Token>::empty());
                        assert(dedent_count(seq![Token::Indent]) == 0);
                        assert(dedent_count(two) == 0);
                        lemma_append_balanced(st.out, two);
                    } else if indent < cur {
                        let (s, n) = close_levels(st.stack, indent);
                        lemma_close_levels_len(st.stack, indent);
                        lemma_dedents_count(n);
                        lemma_counts_add(dedents(n), one);
                        lemma_append_balanced(st.out, dedents(n) + one);
                        assert(st.out + dedents(n) + one =~= st.out + (dedents(n) + one));
                    } else {
                        assert(st.out.push(Token::LineStart(indent)) =~= st.out + one);
                        lemma_append_balanced(st.out, one);
                    }
                }
            },
            _ => {
                let one = seq![tok];
                assert(one.drop_last() =~= Seq::<Token>::empty());
                assert(dedent_count(Seq::<Token>::empty()) == 0);
                assert(dedent_count(one) == 0);
                assert(st.out.push(tok) =~= st.out + one);
                lemma_append_balanced(st.out, one);
            },
        }
    }
}

/// Layout never closes a level it has not opened: from a single base level,
/// on tokens that open and close no level themselves, every prefix of the
/// output holds at least as many `Indent`s as `Dedent`s (and the whole
/// output as many of each, `law_layout_balanced`).
pub proof fn law_layout_prefix_balanced(source: Seq<char>, toks: Seq<Token>, base: usize)
    requires
        forall|i: int| 0 <= i < toks.len() ==> !(#[trigger] toks[i] is Indent) && !(toks[i] is Dedent),
    ensures
        prefix_balanced(layout_of(source, toks, seq![base])),
{
    let skips = lines_of(source).map_values(|l: Seq<char>| skippable(l));
    lemma_run_prefix(toks, skips, base);
    lemma_run_balance(toks, skips, seq![base]);
    let st = layout_run(toks, skips, seq![base]);
    lemma_dedents_count((st.stack.len() - 1) as nat);
    lemma_append_balanced(st.out, dedents((st.stack.len() - 1) as nat));
}

} // verus!
