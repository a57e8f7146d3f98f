//! The lexer: source text to tokens. Whitespace and `--` comments separate
//! tokens; multi-word keyword phrases (`the behavior called`) may be written
//! with spaces or hyphens between their words.

use vstd::prelude::*;
use crate::error::OnuError;
use crate::options::LogLevel;
use crate::text::{chars_of, str_eq, string_from_chars};
use crate::tokens::{LexerPort, Literal, Token};

verus! {

/// Whether a character has the Unicode `White_Space` property (what
/// `char::is_whitespace` tests).
pub open spec fn spec_is_whitespace(c: char) -> bool {
    let u = c as u32;
    (0x09 <= u <= 0x0d) || u == 0x20 || u == 0x85 || u == 0xa0 || u == 0x1680 || (0x2000 <= u <= 0x200a)
        || u == 0x2028 || u == 0x2029 || u == 0x202f || u == 0x205f || u == 0x3000
}

/// Whether a character has the Unicode `White_Space` property.
pub fn is_whitespace(c: char) -> (r: bool)
    ensures
        r == spec_is_whitespace(c),
{
    let u = c as u32;
    (0x09 <= u && u <= 0x0d) || u == 0x20 || u == 0x85 || u == 0xa0 || u == 0x1680 || (0x2000 <= u && u <= 0x200a)
        || u == 0x2028 || u == 0x2029 || u == 0x202f || u == 0x205f || u == 0x3000
}

/// Whether `char::is_alphanumeric` holds of a character: it is Unicode
/// `Alphabetic` or `Numeric`.
pub uninterp spec fn spec_is_alphanumeric(c: char) -> bool;

/// `char::is_alphanumeric`: whether the character is alphabetic or numeric
/// in Unicode. The tables are Unicode's; the result is named, not restated.
#[verifier::external_body]
fn is_alphanumeric(c: char) -> (r: bool)
    ensures
        r == spec_is_alphanumeric(c),
{
    c.is_alphanumeric()
}

/// Whether a character may be part of a word.
pub open spec fn is_word_char(c: char) -> bool {
    spec_is_alphanumeric(c) || c == '-' || c == '_'
}

fn word_char(c: char) -> (r: bool)
    ensures
        r == is_word_char(c),
{
    c == '-' || c == '_' || is_alphanumeric(c)
}

pub open spec fn is_digit(c: char) -> bool {
    '0' <= c <= '9'
}

/// The end of the word starting at `i`.
pub open spec fn word_end(s: Seq<char>, i: int) -> int
    decreases s.len() - i,
{
    if i < 0 || i >= s.len() || !is_word_char(s[i]) { if i < 0 { 0 } else { i } } else { word_end(s, i + 1) }
}

/// The end of a run of whitespace other than newlines from `i`.
pub open spec fn hspace_end(s: Seq<char>, i: int) -> int
    decreases s.len() - i,
{
    if i < 0 || i >= s.len() || !(spec_is_whitespace(s[i]) && s[i] != '\n') { if i < 0 { 0 } else { i } } else { hspace_end(s, i + 1) }
}

/// The position just after the end of the line holding `i`.
pub open spec fn comment_end(s: Seq<char>, i: int) -> int
    decreases s.len() - i,
{
    if i < 0 || i >= s.len() { if i < 0 { 0 } else { s.len() as int } } else if s[i] == '\n' { i + 1 } else { comment_end(s, i + 1) }
}

/// The first position from `i` that is neither whitespace nor in a `--`
/// comment.
pub open spec fn skip_trivia(s: Seq<char>, i: int) -> int
    decreases s.len() - i,
{
    if i < 0 {
        0
    } else if i >= s.len() {
        i
    } else if spec_is_whitespace(s[i]) {
        skip_trivia(s, i + 1)
    } else if s[i] == '-' && i + 1 < s.len() && s[i + 1] == '-' {
        let ce = comment_end(s, i + 2);
        if ce <= i || ce > s.len() { i } else { skip_trivia(s, ce) }
    } else {
        i
    }
}

/// The end of a number starting at `i`: digits and at most one `.`.
pub open spec fn number_end(s: Seq<char>, i: int, seen_dot: bool) -> int
    decreases s.len() - i,
{
    if i < 0 || i >= s.len() {
        if i < 0 { 0 } else { i }
    } else if is_digit(s[i]) {
        number_end(s, i + 1, seen_dot)
    } else if s[i] == '.' && !seen_dot {
        number_end(s, i + 1, true)
    } else {
        i
    }
}

/// The value of a run of decimal digits.
pub open spec fn digits_value(d: Seq<char>) -> nat
    decreases d.len(),
{
    if d.len() == 0 { 0 } else { digits_value(d.drop_last()) * 10 + ((d.last() as u32) - 48) as nat }
}

/// The end of a string literal whose opening quote is just before `i`:
/// just after the closing quote, or the end of the text.
pub open spec fn string_end(s: Seq<char>, i: int) -> int
    decreases s.len() - i,
{
    if i < 0 || i >= s.len() { if i < 0 { 0 } else { s.len() as int } } else if s[i] == '"' { i + 1 } else { string_end(s, i + 1) }
}

/// The token of a keyword phrase (its words joined by `-`).
pub open spec fn phrase_token(w: Seq<char>) -> Option<Token> {
    if w == "the-module-called"@ { Some(Token::TheModuleCalled) }
    else if w == "the-shape-called"@ { Some(Token::TheShapeCalled) }
    else if w == "the-behavior-called"@ { Some(Token::TheBehaviorCalled) }
    else if w == "the-effect-behavior-called"@ { Some(Token::TheEffectBehaviorCalled) }
    else if w == "with-intent"@ { Some(Token::WithIntent) }
    else if w == "with-concern"@ { Some(Token::WithConcern) }
    else if w == "with-diminishing"@ { Some(Token::WithDiminishing) }
    else if w == "no-guaranteed-termination"@ { Some(Token::NoGuaranteedTermination) }
    else if w == "derives-from"@ { Some(Token::DerivesFrom) }
    else if w == "decreased-by"@ { Some(Token::DecreasedBy) }
    else if w == "partitions-by"@ { Some(Token::PartitionsBy) }
    else if w == "scales-by"@ { Some(Token::ScalesBy) }
    else if w == "added-to"@ { Some(Token::AddedTo) }
    else if w == "utilizes"@ { Some(Token::Utilizes) }
    else if w == "broadcasts"@ { Some(Token::Broadcasts) }
    else if w == "derivation"@ { Some(Token::Derivation) }
    else if w == "matches"@ { Some(Token::Matches) }
    else if w == "exceeds"@ { Some(Token::Exceeds) }
    else if w == "falls-short-of"@ { Some(Token::FallsShortOf) }
    else if w == "unites-with"@ { Some(Token::UnitesWith) }
    else if w == "joins-with"@ { Some(Token::JoinsWith) }
    else if w == "opposes"@ { Some(Token::Opposes) }
    else if w == "init-of"@ { Some(Token::InitOf) }
    else if w == "tail-of"@ { Some(Token::TailOf) }
    else if w == "duplicated-as"@ { Some(Token::DuplicatedAs) }
    else { None }
}

/// The token of a single keyword word, if it is one.
pub open spec fn word_token(w: Seq<char>) -> Option<Token> {
    if w == "if"@ { Some(Token::If) }
    else if w == "then"@ { Some(Token::Then) }
    else if w == "else"@ { Some(Token::Else) }
    else if w == "takes"@ { Some(Token::Takes) }
    else if w == "delivers"@ { Some(Token::Delivers) }
    else if w == "called"@ { Some(Token::Called) }
    else if w == "as"@ { Some(Token::As) }
    else if w == "nothing"@ { Some(Token::Nothing) }
    else if w == "true"@ { Some(Token::Literal(Literal::Boolean(true))) }
    else if w == "false"@ { Some(Token::Literal(Literal::Boolean(false))) }
    else { None }
}

/// The longest keyword phrase of up to four words starting at `pos` (the
/// `k`-th word), words separated by spaces or tabs on one line: the phrase
/// token and where it ends.
pub open spec fn scan_phrase(s: Seq<char>, pos: int, joined: Seq<char>, k: nat, found: Option<(Token, int)>) -> Option<(Token, int)>
    decreases 4 - k,
{
    if k >= 4 {
        found
    } else {
        let e = word_end(s, pos);
        if e <= pos {
            found
        } else {
            let w = s.subrange(pos, e);
            let cand = if k == 0 { w } else { joined + seq!['-'] + w };
            let f2 = match phrase_token(cand) {
                Some(t) => Some((t, e)),
                None => found,
            };
            scan_phrase(s, hspace_end(s, e), cand, k + 1, f2)
        }
    }
}

/// What a token is, with the text it carries as characters.
pub enum TokenShape {
    Fixed(Token),
    Ident(Seq<char>),
    Op(Seq<char>),
    Str(Seq<char>),
    Int(i128),
    Dec(Seq<char>),
}

/// Whether a token has a given shape.
pub open spec fn token_has_shape(t: Token, d: TokenShape) -> bool {
    match d {
        TokenShape::Fixed(x) => t == x,
        TokenShape::Ident(w) => t matches Token::Identifier(x) && x@ == w,
        TokenShape::Op(w) => t matches Token::Operator(x) && x@ == w,
        TokenShape::Str(w) => t matches Token::Literal(Literal::String(x)) && x@ == w,
        TokenShape::Int(v) => t == Token::Literal(Literal::Integer(v)),
        TokenShape::Dec(w) => t matches Token::Literal(Literal::Decimal(x)) && x@ == w,
    }
}

/// The token starting at `i` (which holds a character that can start a
/// token) and the position after it.
pub open spec fn token_at(s: Seq<char>, i: int) -> (TokenShape, int) {
    let c = s[i];
    if c == '(' || c == ')' {
        (TokenShape::Fixed(Token::Delimiter(c)), i + 1)
    } else if c == ':' {
        (TokenShape::Op(seq![':']), i + 1)
    } else if c == '"' {
        let e = string_end(s, i + 1);
        let body_end = if e > i + 1 && s[e - 1] == '"' && e - 1 >= i + 1 { e - 1 } else { e };
        (TokenShape::Str(s.subrange(i + 1, body_end)), e)
    } else if is_digit(c) {
        let e = number_end(s, i, false);
        let text = s.subrange(i, e);
        if text.contains('.') {
            (TokenShape::Dec(text), e)
        } else {
            let v = digits_value(text);
            (TokenShape::Int(if v <= i128::MAX { v as i128 } else { 0 }), e)
        }
    } else {
        match scan_phrase(s, i, Seq::empty(), 0, None) {
            Some((t, e)) => (TokenShape::Fixed(t), e),
            None => {
                let e = word_end(s, i);
                let w = s.subrange(i, e);
                match word_token(w) {
                    Some(t) => (TokenShape::Fixed(t), e),
                    None => (TokenShape::Ident(w), e),
                }
            }
        }
    }
}

/// Whether a character starts a token.
pub open spec fn starts_token(c: char) -> bool {
    c == '(' || c == ')' || c == ':' || c == '"' || is_digit(c) || is_word_char(c)
}

/// The tokens of the text from position `i`; characters that start no
/// token are skipped.
pub open spec fn lex_from(s: Seq<char>, i: int) -> Seq<TokenShape>
    decreases s.len() - i,
{
    let j = skip_trivia(s, i);
    if j < i || j >= s.len() {
        Seq::empty()
    } else if !starts_token(s[j]) {
        lex_from(s, j + 1)
    } else {
        let (d, e) = token_at(s, j);
        if e <= j || e > s.len() { Seq::empty() } else { seq![d] + lex_from(s, e) }
    }
}

fn scan_word_end(s: &Vec<char>, i: usize) -> (r: usize)
    requires
        i <= s@.len(),
    ensures
        r == word_end(s@, i as int),
        i <= r <= s@.len(),
{
    let mut j = i;
    while j < s.len() && word_char(s[j])
        invariant
            i <= j <= s@.len(),
            word_end(s@, i as int) == word_end(s@, j as int),
        decreases s.len() - j,
    {
        j = j + 1;
    }
    j
}

fn scan_hspace_end(s: &Vec<char>, i: usize) -> (r: usize)
    requires
        i <= s@.len(),
    ensures
        r == hspace_end(s@, i as int),
        i <= r <= s@.len(),
{
    let mut j = i;
    while j < s.len() && is_whitespace(s[j]) && s[j] != '\n'
        invariant
            i <= j <= s@.len(),
            hspace_end(s@, i as int) == hspace_end(s@, j as int),
        decreases s.len() - j,
    {
        j = j + 1;
    }
    j
}

fn scan_comment_end(s: &Vec<char>, i: usize) -> (r: usize)
    requires
        i <= s@.len(),
    ensures
        r == comment_end(s@, i as int),
        i <= r <= s@.len(),
{
    let mut j = i;
    while j < s.len()
        invariant
            i <= j <= s@.len(),
            comment_end(s@, i as int) == comment_end(s@, j as int),
        decreases s.len() - j,
    {
        if s[j] == '\n' {
            return j + 1;
        }
        j = j + 1;
    }
    j
}

fn scan_trivia(s: &Vec<char>, i: usize) -> (r: usize)
    requires
        i <= s@.len(),
    ensures
        r == skip_trivia(s@, i as int),
        i <= r <= s@.len(),
{
    let mut j = i;
    while j < s.len()
        invariant
            i <= j <= s@.len(),
            skip_trivia(s@, i as int) == skip_trivia(s@, j as int),
        decreases s.len() - j,
    {
        if is_whitespace(s[j]) {
            j = j + 1;
        } else if s[j] == '-' && j + 1 < s.len() && s[j + 1] == '-' {
            j = scan_comment_end(s, j + 2);
        } else {
            return j;
        }
    }
    j
}

fn scan_number_end(s: &Vec<char>, i: usize) -> (r: usize)
    requires
        i <= s@.len(),
    ensures
        r == number_end(s@, i as int, false),
        i <= r <= s@.len(),
{
    let mut j = i;
    let mut seen_dot = false;
    while j < s.len()
        invariant
            i <= j <= s@.len(),
            number_end(s@, i as int, false) == number_end(s@, j as int, seen_dot),
        decreases s.len() - j,
    {
        let c = s[j];
        if '0' <= c && c <= '9' {
            j = j + 1;
        } else if c == '.' && !seen_dot {
            seen_dot = true;
            j = j + 1;
        } else {
            return j;
        }
    }
    j
}

fn scan_string_end(s: &Vec<char>, i: usize) -> (r: usize)
    requires
        i <= s@.len(),
    ensures
        r == string_end(s@, i as int),
        i <= r <= s@.len(),
{
    let mut j = i;
    while j < s.len()
        invariant
            i <= j <= s@.len(),
            string_end(s@, i as int) == string_end(s@, j as int),
        decreases s.len() - j,
    {
        if s[j] == '"' {
            return j + 1;
        }
        j = j + 1;
    }
    j
}

/// The characters `s[i..j]`.
fn slice_chars(s: &Vec<char>, i: usize, j: usize) -> (r: Vec<char>)
    requires
        i <= j <= s@.len(),
    ensures
        r@ == s@.subrange(i as int, j as int),
{
    let mut out: Vec<char> = Vec::new();
    let mut k = i;
    while k < j
        invariant
            i <= k <= j,
            j <= s@.len(),
            out@ == s@.subrange(i as int, k as int),
        decreases j - k,
    {
        out.push(s[k]);
        assert(out@ =~= s@.subrange(i as int, k as int + 1));
        k = k + 1;
    }
    out
}

/// The value of a run of digits, or 0 when it exceeds `i128::MAX` (as
/// parsing an `i128` and falling back to 0 gives).
fn parse_digits(d: &Vec<char>) -> (r: i128)
    requires
        forall|k: int| 0 <= k < d@.len() ==> is_digit(d@[k]),
    ensures
        r == (if digits_value(d@) <= i128::MAX { digits_value(d@) as i128 } else { 0 }),
{
    let mut acc: i128 = 0;
    let mut k: usize = 0;
    while k < d.len()
        invariant
            k <= d@.len(),
            forall|m: int| 0 <= m < d@.len() ==> is_digit(d@[m]),
            acc == digits_value(d@.subrange(0, k as int)),
        decreases d.len() - k,
    {
        assert(d@.subrange(0, k as int + 1).drop_last() =~= d@.subrange(0, k as int));
        let digit = (d[k] as u32 - 48) as i128;
        if acc > (i128::MAX - digit) / 10 {
            proof {
                lemma_digits_value_prefix_mono(d@, k as int + 1);
            }
            return 0;
        }
        acc = acc * 10 + digit;
        k = k + 1;
    }
    assert(d@.subrange(0, k as int) =~= d@);
    acc
}

proof fn lemma_digits_value_prefix_mono(d: Seq<char>, k: int)
    requires
        0 <= k <= d.len(),
        forall|m: int| 0 <= m < d.len() ==> is_digit(d[m]),
    ensures
        digits_value(d.subrange(0, k)) <= digits_value(d),
    decreases d.len() - k,
{
    if k < d.len() {
        lemma_digits_value_prefix_mono(d, k + 1);
        assert(d.subrange(0, k + 1).drop_last() =~= d.subrange(0, k));
    } else {
        assert(d.subrange(0, k) =~= d);
    }
}

fn phrase_token_of(w: &str) -> (r: Option<Token>)
    ensures
        r == phrase_token(w@),
{
    if str_eq(w, "the-module-called") { Some(Token::TheModuleCalled) }
    else if str_eq(w, "the-shape-called") { Some(Token::TheShapeCalled) }
    else if str_eq(w, "the-behavior-called") { Some(Token::TheBehaviorCalled) }
    else if str_eq(w, "the-effect-behavior-called") { Some(Token::TheEffectBehaviorCalled) }
    else if str_eq(w, "with-intent") { Some(Token::WithIntent) }
    else if str_eq(w, "with-concern") { Some(Token::WithConcern) }
    else if str_eq(w, "with-diminishing") { Some(Token::WithDiminishing) }
    else if str_eq(w, "no-guaranteed-termination") { Some(Token::NoGuaranteedTermination) }
    else if str_eq(w, "derives-from") { Some(Token::DerivesFrom) }
    else if str_eq(w, "decreased-by") { Some(Token::DecreasedBy) }
    else if str_eq(w, "partitions-by") { Some(Token::PartitionsBy) }
    else if str_eq(w, "scales-by") { Some(Token::ScalesBy) }
    else if str_eq(w, "added-to") { Some(Token::AddedTo) }
    else if str_eq(w, "utilizes") { Some(Token::Utilizes) }
    else if str_eq(w, "broadcasts") { Some(Token::Broadcasts) }
    else if str_eq(w, "derivation") { Some(Token::Derivation) }
    else if str_eq(w, "matches") { Some(Token::Matches) }
    else if str_eq(w, "exceeds") { Some(Token::Exceeds) }
    else if str_eq(w, "falls-short-of") { Some(Token::FallsShortOf) }
    else if str_eq(w, "unites-with") { Some(Token::UnitesWith) }
    else if str_eq(w, "joins-with") { Some(Token::JoinsWith) }
    else if str_eq(w, "opposes") { Some(Token::Opposes) }
    else if str_eq(w, "init-of") { Some(Token::InitOf) }
    else if str_eq(w, "tail-of") { Some(Token::TailOf) }
    else if str_eq(w, "duplicated-as") { Some(Token::DuplicatedAs) }
    else { None }
}

fn word_token_of(w: &str) -> (r: Option<Token>)
    ensures
        r == word_token(w@),
{
    if str_eq(w, "if") { Some(Token::If) }
    else if str_eq(w, "then") { Some(Token::Then) }
    else if str_eq(w, "else") { Some(Token::Else) }
    else if str_eq(w, "takes") { Some(Token::Takes) }
    else if str_eq(w, "delivers") { Some(Token::Delivers) }
    else if str_eq(w, "called") { Some(Token::Called) }
    else if str_eq(w, "as") { Some(Token::As) }
    else if str_eq(w, "nothing") { Some(Token::Nothing) }
    else if str_eq(w, "true") { Some(Token::Literal(Literal::Boolean(true))) }
    else if str_eq(w, "false") { Some(Token::Literal(Literal::Boolean(false))) }
    else { None }
}

/// The keyword phrase starting at `i`, if any, and where it ends.
fn scan_phrase_at(s: &Vec<char>, i: usize) -> (r: Option<(Token, usize)>)
    requires
        i <= s@.len(),
    ensures
        match r {
            Some((t, e)) => scan_phrase(s@, i as int, Seq::empty(), 0, None) == Some((t, e as int)) && e <= s@.len(),
            None => scan_phrase(s@, i as int, Seq::empty(), 0, None) is None,
        },
{
    let mut pos = i;
    let mut joined: Vec<char> = Vec::new();
    let mut found: Option<(Token, usize)> = None;
    let mut k: usize = 0;
    while k < 4
        invariant
            i <= pos <= s@.len(),
            k <= 4,
            found matches Some((_, e)) ==> e <= s@.len(),
            scan_phrase(s@, i as int, Seq::empty(), 0, None) == scan_phrase(s@, pos as int, joined@, k as nat,
                match found { Some((t, e)) => Some((t, e as int)), None => None }),
        decreases 4 - k,
    {
        let e = scan_word_end(s, pos);
        if e <= pos {
            return found;
        }
        let w = slice_chars(s, pos, e);
        let mut cand: Vec<char> = Vec::new();
        if k == 0 {
            cand = w;
        } else {
            cand = joined;
            let ghost j0 = cand@;
            cand.push('-');
            let mut m: usize = 0;
            while m < w.len()
                invariant
                    m <= w@.len(),
                    cand@ == j0 + seq!['-'] + w@.subrange(0, m as int),
                decreases w.len() - m,
            {
                cand.push(w[m]);
                assert(cand@ =~= j0 + seq!['-'] + w@.subrange(0, m as int + 1));
                m = m + 1;
            }
            assert(w@.subrange(0, m as int) =~= w@);
        }
        let text = string_from_chars(&cand);
        match phrase_token_of(text.as_str()) {
            Some(t) => { found = Some((t, e)); }
            None => {}
        }
        joined = cand;
        pos = scan_hspace_end(s, e);
        k = k + 1;
    }
    found
}

/// The token starting at `j` and the position after it.
fn token_at_exec(s: &Vec<char>, j: usize) -> (r: (Token, usize))
    requires
        j < s@.len(),
        starts_token(s@[j as int]),
    ensures
        token_has_shape(r.0, token_at(s@, j as int).0),
        r.1 == token_at(s@, j as int).1,
        j < r.1 <= s@.len(),
{
    let n = s.len();
    let c = s[j];
    if c == '(' || c == ')' {
        (Token::Delimiter(c), j + 1)
    } else if c == ':' {
        let op = string_from_chars(&vec![':']);
        proof { assert(op@ =~= seq![':']); }
        (Token::Operator(op), j + 1)
    } else if c == '"' {
        let e = scan_string_end(s, j + 1);
        let body_end = if e > j + 1 && s[e - 1] == '"' { e - 1 } else { e };
        let body = slice_chars(s, j + 1, body_end);
        (Token::Literal(Literal::String(string_from_chars(&body))), e)
    } else if '0' <= c && c <= '9' {
        proof { lemma_number_end_bounds(s@, j as int + 1, false); }
        let e = scan_number_end(s, j);
        let text = slice_chars(s, j, e);
        let mut has_dot = false;
        let mut k: usize = 0;
        while k < text.len()
            invariant
                k <= text@.len(),
                has_dot == text@.subrange(0, k as int).contains('.'),
            decreases text.len() - k,
        {
            if text[k] == '.' {
                has_dot = true;
                assert(text@.subrange(0, k as int + 1)[k as int] == '.');
            } else {
                proof {
                    if text@.subrange(0, k as int + 1).contains('.') {
                        let t = text@.subrange(0, k as int + 1);
                        let m = choose|m: int| 0 <= m < t.len() && #[trigger] t[m] == '.';
                        assert(text@.subrange(0, k as int)[m] == '.');
                    }
                }
            }
            proof {
                if text@.subrange(0, k as int).contains('.') {
                    let t = text@.subrange(0, k as int);
                    let m = choose|m: int| 0 <= m < t.len() && #[trigger] t[m] == '.';
                    assert(text@.subrange(0, k as int + 1)[m] == '.');
                }
            }
            k = k + 1;
        }
        assert(text@.subrange(0, k as int) =~= text@);
        if has_dot {
            (Token::Literal(Literal::Decimal(string_from_chars(&text))), e)
        } else {
            proof { lemma_number_digits(s@, j as int, e as int); }
            (Token::Literal(Literal::Integer(parse_digits(&text))), e)
        }
    } else {
        match scan_phrase_at(s, j) {
            Some((t, e)) => {
                proof { lemma_phrase_end(s@, j as int); }
                (t, e)
            }
            None => {
                proof { lemma_word_end_bounds(s@, j as int + 1); }
                let e = scan_word_end(s, j);
                let w = slice_chars(s, j, e);
                let text = string_from_chars(&w);
                match word_token_of(text.as_str()) {
                    Some(t) => (t, e),
                    None => (Token::Identifier(text), e),
                }
            }
        }
    }
}

/// A number without a `.` is all digits.
proof fn lemma_number_digits(s: Seq<char>, j: int, e: int)
    requires
        0 <= j <= e <= s.len(),
        e == number_end(s, j, false),
        !s.subrange(j, e).contains('.'),
    ensures
        forall|k: int| 0 <= k < e - j ==> is_digit(#[trigger] s.subrange(j, e)[k]),
    decreases e - j,
{
    if j < e {
        if is_digit(s[j]) {
            assert(number_end(s, j + 1, false) == e);
            assert(!s.subrange(j + 1, e).contains('.')) by {
                if s.subrange(j + 1, e).contains('.') {
                    let t = s.subrange(j + 1, e);
                    let m = choose|m: int| 0 <= m < t.len() && #[trigger] t[m] == '.';
                    assert(s.subrange(j, e)[m + 1] == '.');
                }
            }
            lemma_number_digits(s, j + 1, e);
            assert forall|k: int| 0 <= k < e - j implies is_digit(#[trigger] s.subrange(j, e)[k]) by {
                if k > 0 {
                    assert(s.subrange(j, e)[k] == s.subrange(j + 1, e)[k - 1]);
                }
            }
        } else {
            assert(s.subrange(j, e)[0] == '.');
        }
    }
}

/// A keyword phrase ends after the position it starts at.
proof fn lemma_phrase_end(s: Seq<char>, i: int)
    requires
        0 <= i < s.len(),
    ensures
        scan_phrase(s, i, Seq::empty(), 0, None) matches Some((_, e)) ==> i < e <= s.len(),
{
    lemma_scan_phrase_bounds(s, i, Seq::empty(), 0, None, i);
}

proof fn lemma_word_end_bounds(s: Seq<char>, i: int)
    requires
        0 <= i <= s.len(),
    ensures
        i <= word_end(s, i) <= s.len(),
    decreases s.len() - i,
{
    if i < s.len() && is_word_char(s[i]) {
        lemma_word_end_bounds(s, i + 1);
    }
}

proof fn lemma_number_end_bounds(s: Seq<char>, i: int, d: bool)
    requires
        0 <= i <= s.len(),
    ensures
        i <= number_end(s, i, d) <= s.len(),
    decreases s.len() - i,
{
    if i < s.len() {
        if is_digit(s[i]) {
            lemma_number_end_bounds(s, i + 1, d);
        } else if s[i] == '.' && !d {
            lemma_number_end_bounds(s, i + 1, true);
        }
    }
}

proof fn lemma_hspace_end_bounds(s: Seq<char>, i: int)
    requires
        0 <= i <= s.len(),
    ensures
        i <= hspace_end(s, i) <= s.len(),
    decreases s.len() - i,
{
    if i < s.len() && spec_is_whitespace(s[i]) && s[i] != '\n' {
        lemma_hspace_end_bounds(s, i + 1);
    }
}

proof fn lemma_scan_phrase_bounds(s: Seq<char>, pos: int, joined: Seq<char>, k: nat, found: Option<(Token, int)>, lo: int)
    requires
        0 <= lo <= pos <= s.len(),
        found matches Some((_, e)) ==> lo < e <= s.len(),
    ensures
        scan_phrase(s, pos, joined, k, found) matches Some((_, e)) ==> lo < e <= s.len(),
    decreases 4 - k,
{
    if k < 4 {
        lemma_word_end_bounds(s, pos);
        let e = word_end(s, pos);
        if e > pos {
            let w = s.subrange(pos, e);
            let cand = if k == 0 { w } else { joined + seq!['-'] + w };
            let f2 = match phrase_token(cand) {
                Some(t) => Some((t, e)),
                None => found,
            };
            lemma_hspace_end_bounds(s, e);
            lemma_scan_phrase_bounds(s, hspace_end(s, e), cand, k + 1, f2, lo);
        }
    }
}

/// The lexer, with the level of its progress messages.
pub struct OnuLexer {
    pub log_level: LogLevel,
}

impl OnuLexer {
    pub fn new(log_level: LogLevel) -> (r: OnuLexer)
        ensures
            r.log_level == log_level,
    {
        OnuLexer { log_level }
    }

    /// The tokens of a source text, in order: each is what `lex_from`
    /// describes at its position. Lexing never fails; characters that start
    /// no token are skipped.
    pub fn tokenize(source: &str) -> (r: Vec<Token>)
        ensures
            r@.len() == lex_from(source@, 0).len(),
            forall|k: int| 0 <= k < r@.len() ==> token_has_shape(#[trigger] r@[k], lex_from(source@, 0)[k]),
    {
        let s = chars_of(source);
        let ghost all = lex_from(s@, 0);
        let ghost mut done: Seq<TokenShape> = Seq::empty();
        let mut out: Vec<Token> = Vec::new();
        let mut i: usize = 0;
        while i < s.len()
            invariant
                i <= s@.len(),
                all == lex_from(s@, 0),
                all == done + lex_from(s@, i as int),
                out@.len() == done.len(),
                forall|k: int| 0 <= k < out@.len() ==> token_has_shape(#[trigger] out@[k], done[k]),
            decreases s.len() - i,
        {
            let j = scan_trivia(&s, i);
            if j >= s.len() {
                assert(lex_from(s@, i as int) =~= Seq::<TokenShape>::empty());
                assert(lex_from(s@, s@.len() as int) =~= Seq::<TokenShape>::empty());
                assert(done + lex_from(s@, i as int) =~= done + lex_from(s@, s@.len() as int));
                i = s.len();
                continue;
            }
            let c = s[j];
            let starts = c == '(' || c == ')' || c == ':' || c == '"' || ('0' <= c && c <= '9') || word_char(c);
            if !starts {
                assert(lex_from(s@, i as int) == lex_from(s@, j as int + 1));
                i = j + 1;
            } else {
                let (t, e) = token_at_exec(&s, j);
                proof {
                    let d = token_at(s@, j as int).0;
                    assert(lex_from(s@, i as int) == seq![d] + lex_from(s@, e as int));
                    assert(done + lex_from(s@, i as int) =~= done.push(d) + lex_from(s@, e as int));
                    done = done.push(d);
                }
                out.push(t);
                i = e;
            }
        }
        proof {
            if i >= s@.len() {
                assert(lex_from(s@, i as int) =~= Seq::<TokenShape>::empty());
            }
            assert(all =~= done);
        }
        out
    }
}

impl LexerPort for OnuLexer {
    /// The tokens of the source; lexing always succeeds.
    fn lex(&self, source: &str) -> (r: Result<Vec<Token>, OnuError>)
        ensures
            r matches Ok(v) && v@.len() == lex_from(source@, 0).len()
                && forall|k: int| 0 <= k < v@.len() ==> token_has_shape(#[trigger] v@[k], lex_from(source@, 0)[k]),
    {
        Ok(Self::tokenize(source))
    }
}

/// How a keyword token is written in the source: the word or hyphenated
/// phrase it stands for (`None` for tokens that are not keywords).
pub open spec fn keyword_spelling(t: Token) -> Option<Seq<char>> {
    match t {
        Token::TheModuleCalled => Some("the-module-called"@),
        Token::TheShapeCalled => Some("the-shape-called"@),
        Token::TheBehaviorCalled => Some("the-behavior-called"@),
        Token::TheEffectBehaviorCalled => Some("the-effect-behavior-called"@),
        Token::WithIntent => Some("with-intent"@),
        Token::WithConcern => Some("with-concern"@),
        Token::WithDiminishing => Some("with-diminishing"@),
        Token::NoGuaranteedTermination => Some("no-guaranteed-termination"@),
        Token::DerivesFrom => Some("derives-from"@),
        Token::DecreasedBy => Some("decreased-by"@),
        Token::PartitionsBy => Some("partitions-by"@),
        Token::ScalesBy => Some("scales-by"@),
        Token::AddedTo => Some("added-to"@),
        Token::Utilizes => Some("utilizes"@),
        Token::Broadcasts => Some("broadcasts"@),
        Token::Derivation => Some("derivation"@),
        Token::Matches => Some("matches"@),
        Token::Exceeds => Some("exceeds"@),
        Token::FallsShortOf => Some("falls-short-of"@),
        Token::UnitesWith => Some("unites-with"@),
        Token::JoinsWith => Some("joins-with"@),
        Token::Opposes => Some("opposes"@),
        Token::InitOf => Some("init-of"@),
        Token::TailOf => Some("tail-of"@),
        Token::DuplicatedAs => Some("duplicated-as"@),
        Token::If => Some("if"@),
        Token::Then => Some("then"@),
        Token::Else => Some("else"@),
        Token::Takes => Some("takes"@),
        Token::Delivers => Some("delivers"@),
        Token::Called => Some("called"@),
        Token::As => Some("as"@),
        Token::Nothing => Some("nothing"@),
        Token::Literal(Literal::Boolean(true)) => Some("true"@),
        Token::Literal(Literal::Boolean(false)) => Some("false"@),
        _ => None,
    }
}

/// Each keyword lexes to its own token: the token a keyword phrase or word
/// gives is written as that phrase or word, so two different keywords
/// never give the same token.
pub proof fn law_keyword_spelled(w: Seq<char>, v: Seq<char>)
    ensures
        phrase_token(w) matches Some(t) ==> keyword_spelling(t) == Some(w),
        word_token(w) matches Some(t) ==> keyword_spelling(t) == Some(w),
        phrase_token(w) is Some && phrase_token(w) == phrase_token(v) ==> w == v,
        word_token(w) is Some && word_token(w) == word_token(v) ==> w == v,
{
}

} // verus!
