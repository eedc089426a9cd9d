//! Lexical analysis: tokens and the tokenizer.

use vstd::prelude::*;
use vstd::string::StrSliceExecFns;

verus! {

/// A lexical token, produced in source order.
///
/// `NewLine` carries the 1-based number of the line it terminates.  `Indent`
/// stands for one 2-space indentation unit.  A `Float` keeps its source
/// spelling (sign, digits, one dot) verbatim, so no precision is lost.
#[derive(Debug, PartialEq, Eq)]
pub enum Token {
    Item,
    Group,
    Colon,
    Reference,
    Indent,
    NewLine(usize),
    Integer(i128),
    Float(String),
    QuotedString(String),
    Identifier(String),
    From,
    Import,
}

/// The mathematical model of a [`Token`]: payloads are unbounded integers
/// and character sequences.
pub enum TokenV {
    Item,
    Group,
    Colon,
    Reference,
    Indent,
    NewLine(int),
    Integer(int),
    Float(Seq<char>),
    QuotedString(Seq<char>),
    Identifier(Seq<char>),
    From,
    Import,
}

impl DeepView for Token {
    type V = TokenV;

    open spec fn deep_view(&self) -> TokenV {
        match self {
            Token::Item => TokenV::Item,
            Token::Group => TokenV::Group,
            Token::Colon => TokenV::Colon,
            Token::Reference => TokenV::Reference,
            Token::Indent => TokenV::Indent,
            Token::NewLine(n) => TokenV::NewLine(*n as int),
            Token::Integer(n) => TokenV::Integer(*n as int),
            Token::Float(s) => TokenV::Float(s@),
            Token::QuotedString(s) => TokenV::QuotedString(s@),
            Token::Identifier(s) => TokenV::Identifier(s@),
            Token::From => TokenV::From,
            Token::Import => TokenV::Import,
        }
    }
}

/// The discriminant of a [`Token`], with no payload: token kinds are
/// compared while the payloads are ignored.
#[derive(Clone, Copy, PartialEq, Eq, Structural, Debug)]
pub enum TokenKind {
    Item,
    Group,
    Colon,
    Reference,
    Indent,
    NewLine,
    Integer,
    Float,
    QuotedString,
    Identifier,
    From,
    Import,
}

/// The kind of a token model value.
pub open spec fn kind_of(t: TokenV) -> TokenKind {
    match t {
        TokenV::Item => TokenKind::Item,
        TokenV::Group => TokenKind::Group,
        TokenV::Colon => TokenKind::Colon,
        TokenV::Reference => TokenKind::Reference,
        TokenV::Indent => TokenKind::Indent,
        TokenV::NewLine(_) => TokenKind::NewLine,
        TokenV::Integer(_) => TokenKind::Integer,
        TokenV::Float(_) => TokenKind::Float,
        TokenV::QuotedString(_) => TokenKind::QuotedString,
        TokenV::Identifier(_) => TokenKind::Identifier,
        TokenV::From => TokenKind::From,
        TokenV::Import => TokenKind::Import,
    }
}

impl Token {
    /// The discriminant of this token.
    pub fn kind(&self) -> (k: TokenKind)
        ensures
            k == kind_of(self.deep_view()),
    {
        match self {
            Token::Item => TokenKind::Item,
            Token::Group => TokenKind::Group,
            Token::Colon => TokenKind::Colon,
            Token::Reference => TokenKind::Reference,
            Token::Indent => TokenKind::Indent,
            Token::NewLine(_) => TokenKind::NewLine,
            Token::Integer(_) => TokenKind::Integer,
            Token::Float(_) => TokenKind::Float,
            Token::QuotedString(_) => TokenKind::QuotedString,
            Token::Identifier(_) => TokenKind::Identifier,
            Token::From => TokenKind::From,
            Token::Import => TokenKind::Import,
        }
    }

    /// Whether this token is of kind `k`, ignoring any payload.
    pub fn is_kind(&self, k: TokenKind) -> (r: bool)
        ensures
            r == (kind_of(self.deep_view()) == k),
    {
        self.kind() == k
    }
}

// ---------------------------------------------------------------------------
// Character classes.
// ---------------------------------------------------------------------------

/// A decimal digit.
pub open spec fn is_digit(c: char) -> bool {
    48 <= c as u32 && c as u32 <= 57
}

/// The numeric value of a decimal digit.
pub open spec fn digit_val(c: char) -> int {
    c as u32 - 48
}

/// Whether the character is a Unicode letter.  Identifiers may start with
/// any letter, ASCII or not.
pub uninterp spec fn is_letter(c: char) -> bool;

/// Relies on char::is_alphabetic: whether the character is a Unicode
/// letter, a property of the character alone.
#[verifier::external_body]
fn is_letter_char(c: char) -> (r: bool)
    ensures
        r == is_letter(c),
{
    c.is_alphabetic()
}

/// A character that ends an identifier: whitespace, a colon, or a newline.
pub open spec fn is_ident_stop(c: char) -> bool {
    c == ' ' || c == '\t' || c == '\r' || c == '\n' || c == ':'
}

fn is_ident_stop_char(c: char) -> (r: bool)
    ensures
        r == is_ident_stop(c),
{
    c == ' ' || c == '\t' || c == '\r' || c == '\n' || c == ':'
}

fn is_digit_char(c: char) -> (r: bool)
    ensures
        r == is_digit(c),
{
    let u = c as u32;
    48 <= u && u <= 57
}

// ---------------------------------------------------------------------------
// Scanning helpers.
// ---------------------------------------------------------------------------

/// The first position at or after `i` holding a newline, or the end of
/// input.
pub open spec fn scan_line_end(s: Seq<char>, i: int) -> int
    decreases s.len() - i,
        when 0 <= i <= s.len()
{
    if i >= s.len() {
        i
    } else if s[i] == '\n' {
        i
    } else {
        scan_line_end(s, i + 1)
    }
}

/// What `scan_line_end` returns: the first newline position.
pub proof fn lemma_scan_line_end(s: Seq<char>, i: int)
    requires
        0 <= i <= s.len(),
    ensures
        i <= scan_line_end(s, i) <= s.len(),
        scan_line_end(s, i) < s.len() ==> s[scan_line_end(s, i)] == '\n',
        forall|j: int| i <= j < scan_line_end(s, i) ==> s[j] != '\n',
    decreases s.len() - i,
{
    if i < s.len() && s[i] != '\n' {
        lemma_scan_line_end(s, i + 1);
    }
}

/// The first position at or after `i` holding a double quote, or the end of
/// input.
pub open spec fn scan_quote_end(s: Seq<char>, i: int) -> int
    decreases s.len() - i,
        when 0 <= i <= s.len()
{
    if i >= s.len() {
        i
    } else if s[i] == '"' {
        i
    } else {
        scan_quote_end(s, i + 1)
    }
}

/// What `scan_quote_end` returns: the first quote position.
pub proof fn lemma_scan_quote_end(s: Seq<char>, i: int)
    requires
        0 <= i <= s.len(),
    ensures
        i <= scan_quote_end(s, i) <= s.len(),
        scan_quote_end(s, i) < s.len() ==> s[scan_quote_end(s, i)] == '"',
        forall|j: int| i <= j < scan_quote_end(s, i) ==> s[j] != '"',
    decreases s.len() - i,
{
    if i < s.len() && s[i] != '"' {
        lemma_scan_quote_end(s, i + 1);
    }
}

/// The first position at or after `i` that ends an identifier, or the end
/// of input.
pub open spec fn scan_ident_end(s: Seq<char>, i: int) -> int
    decreases s.len() - i,
        when 0 <= i <= s.len()
{
    if i >= s.len() {
        i
    } else if is_ident_stop(s[i]) {
        i
    } else {
        scan_ident_end(s, i + 1)
    }
}

/// What `scan_ident_end` returns: the first stop position.
pub proof fn lemma_scan_ident_end(s: Seq<char>, i: int)
    requires
        0 <= i <= s.len(),
    ensures
        i <= scan_ident_end(s, i) <= s.len(),
        scan_ident_end(s, i) < s.len() ==> is_ident_stop(s[scan_ident_end(s, i)]),
        forall|j: int| i <= j < scan_ident_end(s, i) ==> !is_ident_stop(s[j]),
    decreases s.len() - i,
{
    if i < s.len() && !is_ident_stop(s[i]) {
        lemma_scan_ident_end(s, i + 1);
    }
}

/// The end of a numeric literal starting at `i`: digits, with at most one
/// dot (`seen_dot` tells whether one was already consumed).
pub open spec fn scan_number(s: Seq<char>, i: int, seen_dot: bool) -> int
    decreases s.len() - i,
        when 0 <= i <= s.len()
{
    if i >= s.len() {
        i
    } else if is_digit(s[i]) {
        scan_number(s, i + 1, seen_dot)
    } else if s[i] == '.' && !seen_dot {
        scan_number(s, i + 1, true)
    } else {
        i
    }
}

/// What `scan_number` returns: a span of digits and at most one further dot.
pub proof fn lemma_scan_number(s: Seq<char>, i: int, seen_dot: bool)
    requires
        0 <= i <= s.len(),
    ensures
        i <= scan_number(s, i, seen_dot) <= s.len(),
        forall|j: int| i <= j < scan_number(s, i, seen_dot) ==> is_digit(s[j]) || s[j] == '.',
        seen_dot ==> forall|j: int| i <= j < scan_number(s, i, seen_dot) ==> is_digit(s[j]),
    decreases s.len() - i,
{
    if i < s.len() {
        if is_digit(s[i]) {
            lemma_scan_number(s, i + 1, seen_dot);
        } else if s[i] == '.' && !seen_dot {
            lemma_scan_number(s, i + 1, true);
        }
    }
}

/// Whether the range `[a, b)` of `s` holds a dot.
pub open spec fn has_dot(s: Seq<char>, a: int, b: int) -> bool {
    exists|j: int| a <= j < b && s[j] == '.'
}

/// The value of a sequence of decimal digits, most significant first.
pub open spec fn dec_value(s: Seq<char>) -> int
    decreases s.len(),
{
    if s.len() == 0 {
        0
    } else {
        dec_value(s.drop_last()) * 10 + digit_val(s.last())
    }
}

/// The reserved words of the language, and what any other word is: an
/// identifier.
pub open spec fn classify_word(w: Seq<char>) -> TokenV {
    if w == "Item"@ {
        TokenV::Item
    } else if w == "Group"@ {
        TokenV::Group
    } else if w == "from"@ {
        TokenV::From
    } else if w == "import"@ {
        TokenV::Import
    } else {
        TokenV::Identifier(w)
    }
}

// ---------------------------------------------------------------------------
// The tokenizer.
// ---------------------------------------------------------------------------

/// A fatal lexical error: a numeric literal that does not fit the signed
/// 128-bit integer range.  Carries the 1-based line on which it stood.
#[derive(Clone, Copy, PartialEq, Eq, Structural, Debug)]
pub struct LexError {
    pub line: usize,
}

/// Prepend one token to a tokenization outcome.
pub open spec fn tok_cons(t: TokenV, rest: Result<Seq<TokenV>, int>) -> Result<
    Seq<TokenV>,
    int,
> {
    match rest {
        Ok(ts) => Ok(seq![t] + ts),
        Err(e) => Err(e),
    }
}

/// Prepend already-emitted tokens to a tokenization outcome.
pub open spec fn tok_append(prefix: Seq<TokenV>, rest: Result<Seq<TokenV>, int>) -> Result<
    Seq<TokenV>,
    int,
> {
    match rest {
        Ok(ts) => Ok(prefix + ts),
        Err(e) => Err(e),
    }
}

proof fn lemma_tok_append_cons(prefix: Seq<TokenV>, t: TokenV, rest: Result<Seq<TokenV>, int>)
    ensures
        tok_append(prefix, tok_cons(t, rest)) == tok_append(prefix.push(t), rest),
{
    match rest {
        Ok(ts) => {
            assert(prefix + (seq![t] + ts) =~= prefix.push(t) + ts);
        },
        Err(_) => {},
    }
}

/// The tokens of `s` from position `i` on, with `line` the current 1-based
/// line number — or the line of a numeric literal that does not fit
/// `i128`.
///
/// This is the lexical reference of the language, one rule per branch, in
/// priority order: comments, 2-space indentation units, newlines, colons,
/// references, quoted strings (fail-soft when unterminated), signed
/// numeric literals, words, and silently skipped characters.
pub open spec fn spec_tokenize(s: Seq<char>, i: int, line: int) -> Result<Seq<TokenV>, int>
    decreases s.len() - i,
        when 0 <= i <= s.len()
{
    if i >= s.len() {
        Ok(Seq::empty())
    } else {
        let c = s[i];
        if c == '#' {
            {
                proof {
                    lemma_scan_line_end(s, i + 1);
                }
                spec_tokenize(s, scan_line_end(s, i + 1), line)
            }
        } else if c == ' ' {
            if i + 1 < s.len() && s[i + 1] == ' ' {
                tok_cons(TokenV::Indent, spec_tokenize(s, i + 2, line))
            } else {
                spec_tokenize(s, i + 1, line)
            }
        } else if c == '\n' {
            tok_cons(TokenV::NewLine(line), spec_tokenize(s, i + 1, line + 1))
        } else if c == ':' {
            tok_cons(TokenV::Colon, spec_tokenize(s, i + 1, line))
        } else if c == '&' {
            tok_cons(TokenV::Reference, spec_tokenize(s, i + 1, line))
        } else if c == '"' {
            {
                proof {
                    lemma_scan_quote_end(s, i + 1);
                }
                let e = scan_quote_end(s, i + 1);
                let nxt = if e < s.len() {
                    e + 1
                } else {
                    e
                };
                tok_cons(TokenV::QuotedString(s.subrange(i + 1, e)), spec_tokenize(s, nxt, line))
            }
        } else if is_digit(c) || (c == '-' && i + 1 < s.len() && is_digit(s[i + 1])) {
            {
                let neg = c == '-';
                let ds = if neg {
                    i + 1
                } else {
                    i
                };
                proof {
                    lemma_scan_number(s, ds + 1, false);
                    lemma_scan_number(s, ds + 1, true);
                }
                let e = scan_number(s, ds, false);
                if has_dot(s, ds, e) {
                    tok_cons(TokenV::Float(s.subrange(i, e)), spec_tokenize(s, e, line))
                } else {
                    let m = dec_value(s.subrange(ds, e));
                    let v = if neg {
                        -m
                    } else {
                        m
                    };
                    if v < i128::MIN as int || v > i128::MAX as int {
                        Err(line)
                    } else {
                        tok_cons(TokenV::Integer(v), spec_tokenize(s, e, line))
                    }
                }
            }
        } else if is_letter(c) && !is_ident_stop(c) {
            {
                proof {
                    lemma_scan_ident_end(s, i + 1);
                }
                let e = scan_ident_end(s, i);
                tok_cons(classify_word(s.subrange(i, e)), spec_tokenize(s, e, line))
            }
        } else {
            spec_tokenize(s, i + 1, line)
        }
    }
}

/// Relies on String::push: appends one character at the end.
#[verifier::external_body]
fn push_char(s: &mut String, c: char)
    ensures
        final(s)@ == old(s)@.push(c),
{
    s.push(c);
}

/// The characters of `text`, one per position.
fn chars_of_text(text: &str) -> (r: Vec<char>)
    ensures
        r@ == text@,
{
    let n = text.unicode_len();
    let mut r: Vec<char> = Vec::new();
    for i in 0..n
        invariant
            n == text@.len(),
            r@ == text@.subrange(0, i as int),
    {
        r.push(text.get_char(i));
        proof {
            assert(r@ =~= text@.subrange(0, i + 1));
        }
    }
    proof {
        assert(r@ =~= text@);
    }
    r
}

/// The characters of `chars` between positions `a` and `b`, as a string.
fn string_of_range(chars: &Vec<char>, a: usize, b: usize) -> (r: String)
    requires
        a <= b <= chars@.len(),
    ensures
        r@ == chars@.subrange(a as int, b as int),
{
    let mut r = String::new();
    for j in a..b
        invariant
            a <= j <= b <= chars@.len(),
            r@ == chars@.subrange(a as int, j as int),
    {
        push_char(&mut r, chars[j]);
        proof {
            assert(r@ =~= chars@.subrange(a as int, j + 1));
        }
    }
    r
}

/// Whether the characters of `chars` between `a` and `b` spell `lit`.
fn range_is(chars: &Vec<char>, a: usize, b: usize, lit: &str) -> (r: bool)
    requires
        a <= b <= chars@.len(),
    ensures
        r == (chars@.subrange(a as int, b as int) == lit@),
{
    let m = lit.unicode_len();
    if b - a != m {
        proof {
            assert(chars@.subrange(a as int, b as int).len() == b - a);
        }
        return false;
    }
    for j in 0..m
        invariant
            m == lit@.len(),
            a <= b <= chars@.len(),
            b - a == m,
            forall|t: int| 0 <= t < j ==> chars@.subrange(a as int, b as int)[t] == lit@[t],
    {
        if chars[a + j] != lit.get_char(j) {
            proof {
                assert(chars@.subrange(a as int, b as int)[j as int] != lit@[j as int]);
            }
            return false;
        }
        proof {
            assert(chars@.subrange(a as int, b as int)[j as int] == lit@[j as int]);
        }
    }
    proof {
        assert(chars@.subrange(a as int, b as int) =~= lit@);
    }
    true
}

/// The magnitude of the most negative 128-bit integer.
const I128_MIN_MAG: u128 = 170141183460469231731687303715884105728;

/// The largest magnitude that can still take one more digit: any larger
/// prefix overflows whatever digit follows.
const MAG_STEP_CAP: u128 = 17014118346046923173168730371588410572;

/// The value of the digit run `chars[ds..e]`, or an overflow mark when it
/// exceeds the magnitude of the most negative 128-bit integer.
fn digits_value(chars: &Vec<char>, ds: usize, e: usize) -> (r: (u128, bool))
    requires
        ds <= e <= chars@.len(),
        forall|t: int| ds as int <= t < e as int ==> is_digit(chars@[t]),
    ensures
        r.1 ==> dec_value(chars@.subrange(ds as int, e as int)) > I128_MIN_MAG,
        !r.1 ==> r.0 == dec_value(chars@.subrange(ds as int, e as int)) && r.0 <= I128_MIN_MAG,
{
    let ghost s = chars@;
    let ghost dsi = ds as int;
    let mut mag: u128 = 0;
    let mut over = false;
    let mut j = ds;
    proof {
        assert(s.subrange(dsi, dsi) =~= Seq::<char>::empty());
    }
    while j < e
        invariant
            chars@ == s,
            ds <= j <= e <= s.len(),
            dsi == ds as int,
            forall|t: int| dsi <= t < e as int ==> is_digit(s[t]),
            !over ==> mag == dec_value(s.subrange(dsi, j as int)) && mag <= I128_MIN_MAG,
            over ==> dec_value(s.subrange(dsi, j as int)) > I128_MIN_MAG,
        decreases e - j,
    {
        let d32 = chars[j] as u32;
        proof {
            assert(is_digit(s[j as int]));
        }
        let d = (d32 - 48) as u128;
        let ghost dv = digit_val(s[j as int]);
        let ghost mprev = dec_value(s.subrange(dsi, j as int));
        proof {
            assert(d == dv);
            assert(0 <= dv <= 9);
            assert(s.subrange(dsi, j as int + 1).drop_last() =~= s.subrange(dsi, j as int));
            assert(s.subrange(dsi, j as int + 1).last() == s[j as int]);
            assert(dec_value(s.subrange(dsi, j as int + 1)) == mprev * 10 + dv);
        }
        if over {
            proof {
                assert(mprev * 10 + dv > I128_MIN_MAG) by (nonlinear_arith)
                    requires
                        mprev > I128_MIN_MAG as int,
                        dv >= 0,
                ;
            }
        } else if mag > MAG_STEP_CAP || (mag == MAG_STEP_CAP && d > 8) {
            over = true;
            proof {
                assert(mprev * 10 + dv > I128_MIN_MAG);
            }
        } else {
            proof {
                assert(mag * 10 + d <= I128_MIN_MAG);
            }
            mag = mag * 10 + d;
        }
        j += 1;
    }
    (mag, over)
}

/// Turn `text` into its token sequence, or report the line of a numeric
/// literal that does not fit `i128`.
///
/// The result is exactly `spec_tokenize` of the text, from the start, on
/// line 1.
pub fn tokenize(text: &str) -> (r: Result<Vec<Token>, LexError>)
    requires
        text@.len() < usize::MAX,
    ensures
        match r {
            Ok(v) => spec_tokenize(text@, 0, 1) == Ok::<Seq<TokenV>, int>(v.deep_view())
                && v@.len() <= text@.len(),
            Err(e) => spec_tokenize(text@, 0, 1) == Err::<Seq<TokenV>, int>(e.line as int),
        },
{
    let ghost s = text@;
    let chars = chars_of_text(text);
    let n = chars.len();
    let mut out: Vec<Token> = Vec::new();
    let mut i: usize = 0;
    let mut line: usize = 1;
    proof {
        assert(out.deep_view() =~= Seq::<TokenV>::empty());
        assert(out.deep_view() + Seq::<TokenV>::empty() =~= out.deep_view());
    }
    while i < n
        invariant
            s == text@,
            chars@ == s,
            n == s.len(),
            n < usize::MAX,
            i <= n,
            out@.len() <= i,
            1 <= line,
            line <= i + 1,
            tok_append(out.deep_view(), spec_tokenize(s, i as int, line as int)) == spec_tokenize(
                s,
                0,
                1,
            ),
        decreases n - i,
    {
        let c = chars[i];
        let ghost i0 = i as int;
        let ghost line0 = line as int;
        let ghost odv = out.deep_view();
        if c == '#' {
            proof {
                lemma_scan_line_end(s, i0 + 1);
            }
            let mut j = i + 1;
            while j < n && chars[j] != '\n'
                invariant
                    chars@ == s,
                    n == s.len(),
                    i0 + 1 <= j <= n,
                    scan_line_end(s, i0 + 1) == scan_line_end(s, j as int),
                decreases n - j,
            {
                j += 1;
            }
            proof {
                assert(scan_line_end(s, j as int) == j);
                assert(spec_tokenize(s, i0, line0) == spec_tokenize(s, j as int, line0));
            }
            i = j;
        } else if c == ' ' {
            if i + 1 < n && chars[i + 1] == ' ' {
                out.push(Token::Indent);
                proof {
                    assert(out.deep_view() =~= odv.push(TokenV::Indent));
                    assert(spec_tokenize(s, i0, line0) == tok_cons(
                        TokenV::Indent,
                        spec_tokenize(s, i0 + 2, line0),
                    ));
                    lemma_tok_append_cons(odv, TokenV::Indent, spec_tokenize(s, i0 + 2, line0));
                }
                i = i + 2;
            } else {
                proof {
                    assert(spec_tokenize(s, i0, line0) == spec_tokenize(s, i0 + 1, line0));
                }
                i = i + 1;
            }
        } else if c == '\n' {
            out.push(Token::NewLine(line));
            proof {
                assert(out.deep_view() =~= odv.push(TokenV::NewLine(line0)));
                assert(spec_tokenize(s, i0, line0) == tok_cons(
                    TokenV::NewLine(line0),
                    spec_tokenize(s, i0 + 1, line0 + 1),
                ));
                lemma_tok_append_cons(odv, TokenV::NewLine(line0), spec_tokenize(s, i0 + 1, line0 + 1));
            }
            i = i + 1;
            line = line + 1;
        } else if c == ':' {
            out.push(Token::Colon);
            proof {
                assert(out.deep_view() =~= odv.push(TokenV::Colon));
                assert(spec_tokenize(s, i0, line0) == tok_cons(
                    TokenV::Colon,
                    spec_tokenize(s, i0 + 1, line0),
                ));
                lemma_tok_append_cons(odv, TokenV::Colon, spec_tokenize(s, i0 + 1, line0));
            }
            i = i + 1;
        } else if c == '&' {
            out.push(Token::Reference);
            proof {
                assert(out.deep_view() =~= odv.push(TokenV::Reference));
                assert(spec_tokenize(s, i0, line0) == tok_cons(
                    TokenV::Reference,
                    spec_tokenize(s, i0 + 1, line0),
                ));
                lemma_tok_append_cons(odv, TokenV::Reference, spec_tokenize(s, i0 + 1, line0));
            }
            i = i + 1;
        } else if c == '"' {
            proof {
                lemma_scan_quote_end(s, i0 + 1);
            }
            let mut j = i + 1;
            while j < n && chars[j] != '"'
                invariant
                    chars@ == s,
                    n == s.len(),
                    i0 + 1 <= j <= n,
                    scan_quote_end(s, i0 + 1) == scan_quote_end(s, j as int),
                decreases n - j,
            {
                j += 1;
            }
            proof {
                assert(scan_quote_end(s, j as int) == j);
            }
            let content = string_of_range(&chars, i + 1, j);
            let ghost tv = TokenV::QuotedString(s.subrange(i0 + 1, j as int));
            out.push(Token::QuotedString(content));
            let nxt = if j < n {
                j + 1
            } else {
                j
            };
            proof {
                assert(out.deep_view() =~= odv.push(tv));
                assert(spec_tokenize(s, i0, line0) == tok_cons(
                    tv,
                    spec_tokenize(s, nxt as int, line0),
                ));
                lemma_tok_append_cons(odv, tv, spec_tokenize(s, nxt as int, line0));
            }
            i = nxt;
        } else if is_digit_char(c) || (c == '-' && i + 1 < n && is_digit_char(chars[i + 1])) {
            let neg = c == '-';
            let ds: usize = if neg {
                i + 1
            } else {
                i
            };
            let ghost dsi = ds as int;
            proof {
                lemma_scan_number(s, dsi, false);
                assert(scan_number(s, dsi, false) == scan_number(s, dsi + 1, false));
                lemma_scan_number(s, dsi + 1, false);
            }
            let mut e = ds;
            let mut dot = false;
            while e < n && (is_digit_char(chars[e]) || (chars[e] == '.' && !dot))
                invariant
                    chars@ == s,
                    n == s.len(),
                    dsi <= e <= n,
                    scan_number(s, dsi, false) == scan_number(s, e as int, dot),
                    dot == has_dot(s, dsi, e as int),
                decreases n - e,
            {
                proof {
                    if dot {
                        let w = choose|w: int| dsi <= w < e as int && s[w] == '.';
                        assert(dsi <= w < e + 1 && s[w] == '.');
                    }
                }
                if chars[e] == '.' {
                    dot = true;
                    proof {
                        assert(s[e as int] == '.');
                        assert(has_dot(s, dsi, e + 1));
                    }
                }
                e += 1;
            }
            proof {
                assert(scan_number(s, e as int, dot) == e);
                assert(e >= ds + 1);
            }
            if dot {
                let lex = string_of_range(&chars, i, e);
                let ghost tv = TokenV::Float(s.subrange(i0, e as int));
                out.push(Token::Float(lex));
                proof {
                    assert(out.deep_view() =~= odv.push(tv));
                    assert(spec_tokenize(s, i0, line0) == tok_cons(
                        tv,
                        spec_tokenize(s, e as int, line0),
                    ));
                    lemma_tok_append_cons(odv, tv, spec_tokenize(s, e as int, line0));
                }
                i = e;
            } else {
                proof {
                    assert forall|t: int| dsi <= t < e as int implies is_digit(s[t]) by {
                        assert(is_digit(s[t]) || s[t] == '.');
                        assert(!has_dot(s, dsi, e as int));
                        assert(!(s[t] == '.'));
                    }
                }
                let mv = digits_value(&chars, ds, e);
                let mag = mv.0;
                let over = mv.1;
                let ghost m = dec_value(s.subrange(dsi, e as int));
                if over || (!neg && mag == I128_MIN_MAG) {
                    proof {
                        if over {
                            assert(m > I128_MIN_MAG as int);
                        } else {
                            assert(m == I128_MIN_MAG as int);
                        }
                        assert(spec_tokenize(s, i0, line0) == Err::<Seq<TokenV>, int>(line0));
                    }
                    return Err(LexError { line });
                }
                let val: i128 = if neg {
                    if mag == I128_MIN_MAG {
                        i128::MIN
                    } else {
                        let m1 = mag as i128;
                        -m1
                    }
                } else {
                    mag as i128
                };
                proof {
                    assert(val as int == (if neg {
                        -m
                    } else {
                        m
                    }));
                }
                let ghost tv = TokenV::Integer(val as int);
                out.push(Token::Integer(val));
                proof {
                    assert(out.deep_view() =~= odv.push(tv));
                    assert(spec_tokenize(s, i0, line0) == tok_cons(
                        tv,
                        spec_tokenize(s, e as int, line0),
                    ));
                    lemma_tok_append_cons(odv, tv, spec_tokenize(s, e as int, line0));
                }
                i = e;
            }
        } else if is_letter_char(c) && !is_ident_stop_char(c) {
            proof {
                lemma_scan_ident_end(s, i0);
            }
            let mut j = i;
            while j < n && !is_ident_stop_char(chars[j])
                invariant
                    chars@ == s,
                    n == s.len(),
                    i0 <= j <= n,
                    scan_ident_end(s, i0) == scan_ident_end(s, j as int),
                decreases n - j,
            {
                j += 1;
            }
            proof {
                assert(scan_ident_end(s, j as int) == j);
                assert(j > i0);
            }
            let ghost w = s.subrange(i0, j as int);
            let tok: Token;
            if range_is(&chars, i, j, "Item") {
                tok = Token::Item;
            } else if range_is(&chars, i, j, "Group") {
                tok = Token::Group;
            } else if range_is(&chars, i, j, "from") {
                tok = Token::From;
            } else if range_is(&chars, i, j, "import") {
                tok = Token::Import;
            } else {
                tok = Token::Identifier(string_of_range(&chars, i, j));
            }
            let ghost tv = tok.deep_view();
            proof {
                assert(tv == classify_word(w));
            }
            out.push(tok);
            proof {
                assert(out.deep_view() =~= odv.push(tv));
                assert(spec_tokenize(s, i0, line0) == tok_cons(
                    tv,
                    spec_tokenize(s, j as int, line0),
                ));
                lemma_tok_append_cons(odv, tv, spec_tokenize(s, j as int, line0));
            }
            i = j;
        } else {
            proof {
                assert(spec_tokenize(s, i0, line0) == spec_tokenize(s, i0 + 1, line0));
            }
            i = i + 1;
        }
    }
    proof {
        assert(spec_tokenize(s, i as int, line as int) == Ok::<Seq<TokenV>, int>(Seq::empty()));
        assert(out.deep_view() + Seq::<TokenV>::empty() =~= out.deep_view());
    }
    Ok(out)
}

} // verus!
