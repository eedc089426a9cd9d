//! The structural parser: from the token sequence to a document tree.
//!
//! The grammar is indentation-driven.  A document is a sequence of top-level
//! entries: variable bindings (`name: value`), items (`Item Name:` followed
//! by an indented body), and groups (`Group Name:` likewise).  A body holds
//! pairs (`key: value`), nested blocks (`name:` opening a deeper body), and —
//! directly inside a group — weighted references (`&Name: value`).  An
//! entry's depth is the count of 2-space indentation units before it; a
//! body's entries stand at the parent's depth plus one, and the first
//! shallower line ends the body.  Parsing is fail-fast: the first mismatch
//! aborts with a [`SyntaxError`] carrying the line, what was expected, and
//! what stood there.  `from`/`import` lines are recognized and skipped
//! unresolved: linking is no part of this language.

use vstd::prelude::*;
use vstd::string::StringExecFns;

use crate::model::Block;
use crate::model::BlockMap;
use crate::model::BlockV;
use crate::model::Document;
use crate::model::Group;
use crate::model::Item;
use crate::model::KvMap;
use crate::model::Value;
use crate::model::DocumentV;
use crate::model::GroupV;
use crate::model::ItemV;
use crate::model::ValueV;
use crate::model::upsert;
use crate::token::Token;
use crate::token::TokenV;

verus! {

/// A grammar mismatch: the 1-based line it stood on, a description of what
/// was expected, and the name of what was found.
#[derive(Debug, PartialEq, Eq)]
pub struct SyntaxError {
    pub line: usize,
    pub expected: String,
    pub found: String,
}

/// The mathematical model of a [`SyntaxError`].
pub struct SynErrV {
    pub line: int,
    pub expected: Seq<char>,
    pub found: Seq<char>,
}

impl DeepView for SyntaxError {
    type V = SynErrV;

    open spec fn deep_view(&self) -> SynErrV {
        SynErrV { line: self.line as int, expected: self.expected@, found: self.found@ }
    }
}

/// The token at position `p`, if any.
pub open spec fn tok_at(ts: Seq<TokenV>, p: int) -> Option<TokenV> {
    if 0 <= p < ts.len() {
        Some(ts[p])
    } else {
        None
    }
}

/// The display name of a token, as error messages cite it.
pub open spec fn kind_name(t: TokenV) -> Seq<char> {
    match t {
        TokenV::Item => "Item"@,
        TokenV::Group => "Group"@,
        TokenV::Colon => "Colon"@,
        TokenV::Reference => "Reference"@,
        TokenV::Indent => "Indent"@,
        TokenV::NewLine(_) => "NewLine"@,
        TokenV::Integer(_) => "Integer"@,
        TokenV::Float(_) => "Float"@,
        TokenV::QuotedString(_) => "QuotedString"@,
        TokenV::Identifier(_) => "Identifier"@,
        TokenV::From => "from"@,
        TokenV::Import => "import"@,
    }
}

/// The display name of what stands at position `p`: a token's name, or the
/// end of input.
pub open spec fn found_name(ts: Seq<TokenV>, p: int) -> Seq<char> {
    match tok_at(ts, p) {
        Some(t) => kind_name(t),
        None => "end of input"@,
    }
}

/// The first position at or after `p` that does not hold an `Indent`.
pub open spec fn indent_end(ts: Seq<TokenV>, p: int) -> int
    decreases ts.len() - p,
        when 0 <= p <= ts.len()
{
    if p >= ts.len() {
        p
    } else if ts[p] is Indent {
        indent_end(ts, p + 1)
    } else {
        p
    }
}

/// What `indent_end` returns: the end of the indent run.
pub proof fn lemma_indent_end(ts: Seq<TokenV>, p: int)
    requires
        0 <= p <= ts.len(),
    ensures
        p <= indent_end(ts, p) <= ts.len(),
        indent_end(ts, p) < ts.len() ==> !(ts[indent_end(ts, p)] is Indent),
        forall|j: int| p <= j < indent_end(ts, p) ==> ts[j] is Indent,
    decreases ts.len() - p,
{
    if p < ts.len() && ts[p] is Indent {
        lemma_indent_end(ts, p + 1);
    }
}

/// The first position at or after `p` holding a `NewLine`, or the end of
/// input.
pub open spec fn newline_end(ts: Seq<TokenV>, p: int) -> int
    decreases ts.len() - p,
        when 0 <= p <= ts.len()
{
    if p >= ts.len() {
        p
    } else if ts[p] is NewLine {
        p
    } else {
        newline_end(ts, p + 1)
    }
}

/// What `newline_end` returns: the next newline position.
pub proof fn lemma_newline_end(ts: Seq<TokenV>, p: int)
    requires
        0 <= p <= ts.len(),
    ensures
        p <= newline_end(ts, p) <= ts.len(),
        newline_end(ts, p) < ts.len() ==> ts[newline_end(ts, p)] is NewLine,
    decreases ts.len() - p,
{
    if p < ts.len() && !(ts[p] is NewLine) {
        lemma_newline_end(ts, p + 1);
    }
}

/// A scalar (or pending variable reference) in value position, with the
/// position after it.
pub open spec fn spec_parse_value(ts: Seq<TokenV>, p: int, line: int) -> Result<
    (ValueV, int),
    SynErrV,
> {
    match tok_at(ts, p) {
        Some(TokenV::Integer(n)) => Ok((ValueV::Int(n), p + 1)),
        Some(TokenV::Float(w)) => Ok((ValueV::Float(w), p + 1)),
        Some(TokenV::QuotedString(w)) => Ok((ValueV::Str(w), p + 1)),
        Some(TokenV::Identifier(w)) => Ok((ValueV::Var(w), p + 1)),
        _ => Err(SynErrV { line, expected: "value"@, found: found_name(ts, p) }),
    }
}

/// The end of a line after a value: end of input, or past the `NewLine`,
/// with the updated line counter.
pub open spec fn spec_line_end(ts: Seq<TokenV>, p: int, line: int) -> Result<
    (int, int),
    SynErrV,
> {
    match tok_at(ts, p) {
        None => Ok((p, line)),
        Some(TokenV::NewLine(_)) => Ok((p + 1, line + 1)),
        Some(t) => Err(SynErrV { line, expected: "NewLine"@, found: kind_name(t) }),
    }
}

/// `p` clamped into `[lo, hi]`: the bound that keeps the parser's cursor
/// moving forward.  Whenever the parser itself supplies `p`, the clamp
/// changes nothing.
pub open spec fn pos_clamp(lo: int, hi: int, p: int) -> int {
    if p < lo {
        lo
    } else if p > hi {
        hi
    } else {
        p
    }
}

/// One body of entries at `depth`, from position `p` on: pairs, nested
/// blocks, and — where `allow_refs` holds, directly inside a group —
/// weighted references.  The accumulated maps grow by `upsert`; the body
/// ends before the first entry at a smaller depth, or at the end of input.
pub open spec fn spec_parse_body(
    ts: Seq<TokenV>,
    p: int,
    line: int,
    depth: int,
    allow_refs: bool,
    pairs: Seq<(Seq<char>, ValueV)>,
    blocks: Seq<(Seq<char>, BlockV)>,
    refs: Seq<(Seq<char>, ValueV)>,
) -> Result<(Seq<(Seq<char>, ValueV)>, Seq<(Seq<char>, BlockV)>, Seq<(Seq<char>, ValueV)>, int, int), SynErrV>
    decreases ts.len() - p,
        when 0 <= p <= ts.len()
{
    {
        proof {
            lemma_indent_end(ts, p);
        }
        let e = indent_end(ts, p);
        match tok_at(ts, e) {
            None => Ok((pairs, blocks, refs, e, line)),
            Some(TokenV::NewLine(_)) => spec_parse_body(
                ts,
                e + 1,
                line + 1,
                depth,
                allow_refs,
                pairs,
                blocks,
                refs,
            ),
            Some(t) => {
                if e - p < depth {
                    Ok((pairs, blocks, refs, p, line))
                } else if e - p > depth {
                    Err(SynErrV { line, expected: "indentation"@, found: "Indent"@ })
                } else if t is Identifier {
                    let w = t->Identifier_0;
                    if !(tok_at(ts, e + 1) matches Some(TokenV::Colon)) {
                        Err(SynErrV { line, expected: "Colon"@, found: found_name(ts, e + 1) })
                    } else if tok_at(ts, e + 2) matches Some(TokenV::NewLine(_)) {
                        // a nested block header: its body is one level deeper
                        match spec_parse_body(
                            ts,
                            e + 3,
                            line + 1,
                            depth + 1,
                            false,
                            Seq::empty(),
                            Seq::empty(),
                            Seq::empty(),
                        ) {
                            Ok((bp, bb, _br, p2, line2)) => {
                                let b = BlockV { id: w, pairs: bp, blocks: bb };
                                spec_parse_body(
                                    ts,
                                    pos_clamp(e + 3, ts.len() as int, p2),
                                    line2,
                                    depth,
                                    allow_refs,
                                    pairs,
                                    upsert(blocks, w, b),
                                    refs,
                                )
                            },
                            Err(err) => Err(err),
                        }
                    } else {
                        // a pair: key, colon, value, end of line
                        match spec_parse_value(ts, e + 2, line) {
                            Ok((v, p2)) => match spec_line_end(ts, p2, line) {
                                Ok((p3, line3)) => spec_parse_body(
                                    ts,
                                    pos_clamp(e + 3, ts.len() as int, p3),
                                    line3,
                                    depth,
                                    allow_refs,
                                    upsert(pairs, w, v),
                                    blocks,
                                    refs,
                                ),
                                Err(err) => Err(err),
                            },
                            Err(err) => Err(err),
                        }
                    }
                } else if t is Reference && allow_refs {
                    if !(tok_at(ts, e + 1) matches Some(TokenV::Identifier(_))) {
                        Err(SynErrV { line, expected: "Identifier"@, found: found_name(ts, e + 1) })
                    } else if !(tok_at(ts, e + 2) matches Some(TokenV::Colon)) {
                        Err(SynErrV { line, expected: "Colon"@, found: found_name(ts, e + 2) })
                    } else {
                        let w = tok_at(ts, e + 1)->Some_0->Identifier_0;
                        match spec_parse_value(ts, e + 3, line) {
                            Ok((v, p2)) => match spec_line_end(ts, p2, line) {
                                Ok((p3, line3)) => spec_parse_body(
                                    ts,
                                    pos_clamp(e + 4, ts.len() as int, p3),
                                    line3,
                                    depth,
                                    allow_refs,
                                    pairs,
                                    blocks,
                                    upsert(refs, w, v),
                                ),
                                Err(err) => Err(err),
                            },
                            Err(err) => Err(err),
                        }
                    }
                } else {
                    Err(SynErrV { line, expected: "Identifier"@, found: kind_name(t) })
                }
            },
        }
    }
}

/// The whole document from position `p` on: variable bindings, items, and
/// groups accumulate into `doc`; blank lines are passed over and
/// `from`/`import` lines are recognized but ignored.
pub open spec fn spec_parse_top(ts: Seq<TokenV>, p: int, line: int, doc: DocumentV) -> Result<
    DocumentV,
    SynErrV,
>
    decreases ts.len() - p,
        when 0 <= p <= ts.len()
{
    match tok_at(ts, p) {
        None => Ok(doc),
        Some(TokenV::NewLine(_)) => spec_parse_top(ts, p + 1, line + 1, doc),
        Some(TokenV::From) | Some(TokenV::Import) => {
            proof {
                lemma_newline_end(ts, p + 1);
            }
            let q = newline_end(ts, p + 1);
            if q >= ts.len() {
                Ok(doc)
            } else {
                spec_parse_top(ts, q + 1, line + 1, doc)
            }
        },
        Some(TokenV::Item) => {
            if !(tok_at(ts, p + 1) matches Some(TokenV::Identifier(_))) {
                Err(SynErrV { line, expected: "Identifier"@, found: found_name(ts, p + 1) })
            } else if !(tok_at(ts, p + 2) matches Some(TokenV::Colon)) {
                Err(SynErrV { line, expected: "Colon"@, found: found_name(ts, p + 2) })
            } else if !(tok_at(ts, p + 3) matches Some(TokenV::NewLine(_))) {
                Err(SynErrV { line, expected: "NewLine"@, found: found_name(ts, p + 3) })
            } else {
                let w = tok_at(ts, p + 1)->Some_0->Identifier_0;
                match spec_parse_body(
                    ts,
                    p + 4,
                    line + 1,
                    1,
                    false,
                    Seq::empty(),
                    Seq::empty(),
                    Seq::empty(),
                ) {
                    Ok((ip, ib, _ir, p2, line2)) => {
                        let it = ItemV { id: w, pairs: ip, blocks: ib };
                        spec_parse_top(
                            ts,
                            pos_clamp(p + 4, ts.len() as int, p2),
                            line2,
                            DocumentV { items: upsert(doc.items, w, it), ..doc },
                        )
                    },
                    Err(err) => Err(err),
                }
            }
        },
        Some(TokenV::Group) => {
            if !(tok_at(ts, p + 1) matches Some(TokenV::Identifier(_))) {
                Err(SynErrV { line, expected: "Identifier"@, found: found_name(ts, p + 1) })
            } else if !(tok_at(ts, p + 2) matches Some(TokenV::Colon)) {
                Err(SynErrV { line, expected: "Colon"@, found: found_name(ts, p + 2) })
            } else if !(tok_at(ts, p + 3) matches Some(TokenV::NewLine(_))) {
                Err(SynErrV { line, expected: "NewLine"@, found: found_name(ts, p + 3) })
            } else {
                let w = tok_at(ts, p + 1)->Some_0->Identifier_0;
                match spec_parse_body(
                    ts,
                    p + 4,
                    line + 1,
                    1,
                    true,
                    Seq::empty(),
                    Seq::empty(),
                    Seq::empty(),
                ) {
                    Ok((gp, gb, gr, p2, line2)) => {
                        let g = GroupV { id: w, pairs: gp, blocks: gb, reference: gr };
                        spec_parse_top(
                            ts,
                            pos_clamp(p + 4, ts.len() as int, p2),
                            line2,
                            DocumentV { groups: upsert(doc.groups, w, g), ..doc },
                        )
                    },
                    Err(err) => Err(err),
                }
            }
        },
        Some(TokenV::Identifier(w)) => {
            if !(tok_at(ts, p + 1) matches Some(TokenV::Colon)) {
                Err(SynErrV { line, expected: "Colon"@, found: found_name(ts, p + 1) })
            } else {
                match spec_parse_value(ts, p + 2, line) {
                    Ok((v, p2)) => match spec_line_end(ts, p2, line) {
                        Ok((p3, line3)) => spec_parse_top(
                            ts,
                            pos_clamp(p + 3, ts.len() as int, p3),
                            line3,
                            DocumentV { variables: upsert(doc.variables, w, v), ..doc },
                        ),
                        Err(err) => Err(err),
                    },
                    Err(err) => Err(err),
                }
            }
        },
        Some(t) => Err(SynErrV {
            line,
            expected: "Item, Group or Identifier"@,
            found: kind_name(t),
        }),
    }
}

/// The document of a token sequence: parsing starts at the beginning, on
/// line 1, with everything empty.
pub open spec fn spec_parse(ts: Seq<TokenV>) -> Result<DocumentV, SynErrV> {
    spec_parse_top(
        ts,
        0,
        1,
        DocumentV { variables: Seq::empty(), items: Seq::empty(), groups: Seq::empty() },
    )
}

// ---------------------------------------------------------------------------
// The executable parser.
// ---------------------------------------------------------------------------

/// The name of what stands at position `p`, for error messages.
fn name_of(tokens: &Vec<Token>, p: usize) -> (r: String)
    ensures
        r@ == found_name(tokens.deep_view(), p as int),
{
    if p < tokens.len() {
        match &tokens[p] {
            Token::Item => String::from_str("Item"),
            Token::Group => String::from_str("Group"),
            Token::Colon => String::from_str("Colon"),
            Token::Reference => String::from_str("Reference"),
            Token::Indent => String::from_str("Indent"),
            Token::NewLine(_) => String::from_str("NewLine"),
            Token::Integer(_) => String::from_str("Integer"),
            Token::Float(_) => String::from_str("Float"),
            Token::QuotedString(_) => String::from_str("QuotedString"),
            Token::Identifier(_) => String::from_str("Identifier"),
            Token::From => String::from_str("from"),
            Token::Import => String::from_str("import"),
        }
    } else {
        String::from_str("end of input")
    }
}

/// A scalar (or pending variable reference) in value position.
fn parse_value(tokens: &Vec<Token>, p: usize, line: usize) -> (r: Result<
    (Value, usize),
    SyntaxError,
>)
    requires
        p <= tokens@.len(),
    ensures
        match r {
            Ok(vp) => spec_parse_value(tokens.deep_view(), p as int, line as int) == Ok::<
                (ValueV, int),
                SynErrV,
            >((vp.0.deep_view(), vp.1 as int)) && vp.1 == p + 1,
            Err(e) => spec_parse_value(tokens.deep_view(), p as int, line as int) == Err::<
                (ValueV, int),
                SynErrV,
            >(e.deep_view()),
        },
{
    if p < tokens.len() {
        match &tokens[p] {
            Token::Integer(n) => Ok((Value::Int(*n), p + 1)),
            Token::Float(w) => Ok((Value::Float(w.clone()), p + 1)),
            Token::QuotedString(w) => Ok((Value::Str(w.clone()), p + 1)),
            Token::Identifier(w) => Ok((Value::Var(w.clone()), p + 1)),
            _ => Err(
                SyntaxError {
                    line,
                    expected: String::from_str("value"),
                    found: name_of(tokens, p),
                },
            ),
        }
    } else {
        Err(SyntaxError { line, expected: String::from_str("value"), found: name_of(tokens, p) })
    }
}

/// The end of a line after a value: end of input, or past the `NewLine`.
fn parse_line_end(tokens: &Vec<Token>, p: usize, line: usize) -> (r: Result<
    (usize, usize),
    SyntaxError,
>)
    requires
        p <= tokens@.len(),
        line < usize::MAX,
    ensures
        match r {
            Ok(pl) => spec_line_end(tokens.deep_view(), p as int, line as int) == Ok::<
                (int, int),
                SynErrV,
            >((pl.0 as int, pl.1 as int)) && p <= pl.0 <= p + 1 && pl.0 <= tokens@.len() && line
                <= pl.1 <= line + 1,
            Err(e) => spec_line_end(tokens.deep_view(), p as int, line as int) == Err::<
                (int, int),
                SynErrV,
            >(e.deep_view()),
        },
{
    if p < tokens.len() {
        match &tokens[p] {
            Token::NewLine(_) => Ok((p + 1, line + 1)),
            _ => Err(
                SyntaxError {
                    line,
                    expected: String::from_str("NewLine"),
                    found: name_of(tokens, p),
                },
            ),
        }
    } else {
        Ok((p, line))
    }
}

/// One body of entries at `depth`: pairs, nested blocks, and — where
/// `allow_refs` holds — weighted references, exactly as `spec_parse_body`
/// describes from empty accumulators.
#[verifier::rlimit(60)]
fn parse_body(tokens: &Vec<Token>, p: usize, line: usize, depth: usize, allow_refs: bool) -> (r:
    Result<(KvMap<Value>, BlockMap, KvMap<Value>, usize, usize), SyntaxError>)
    requires
        tokens@.len() < usize::MAX,
        p <= tokens@.len(),
        1 <= depth <= p,
        1 <= line <= p + 1,
    ensures
        match r {
            Ok(out) => spec_parse_body(
                tokens.deep_view(),
                p as int,
                line as int,
                depth as int,
                allow_refs,
                Seq::empty(),
                Seq::empty(),
                Seq::empty(),
            ) == Ok::<_, SynErrV>(
                (
                    out.0.deep_view(),
                    out.1.deep_view(),
                    out.2.deep_view(),
                    out.3 as int,
                    out.4 as int,
                ),
            ) && p <= out.3 <= tokens@.len() && line <= out.4 <= out.3 + 1,
            Err(e) => spec_parse_body(
                tokens.deep_view(),
                p as int,
                line as int,
                depth as int,
                allow_refs,
                Seq::empty(),
                Seq::empty(),
                Seq::empty(),
            ) == Err::<(Seq<(Seq<char>, ValueV)>, Seq<(Seq<char>, BlockV)>, Seq<(Seq<char>, ValueV)>, int, int), _>(
                e.deep_view(),
            ),
        },
    decreases tokens@.len() - p,
{
    let ghost ts = tokens.deep_view();
    let n = tokens.len();
    let mut pairs: KvMap<Value> = KvMap::new();
    let mut blocks: BlockMap = BlockMap::new();
    let mut refs: KvMap<Value> = KvMap::new();
    let mut cp = p;
    let mut cl = line;
    loop
        invariant
            ts == tokens.deep_view(),
            n == ts.len(),
            n < usize::MAX,
            p <= cp <= n,
            1 <= depth <= p,
            1 <= cl <= cp + 1,
            line <= cl,
            spec_parse_body(
                ts,
                p as int,
                line as int,
                depth as int,
                allow_refs,
                Seq::empty(),
                Seq::empty(),
                Seq::empty(),
            ) == spec_parse_body(
                ts,
                cp as int,
                cl as int,
                depth as int,
                allow_refs,
                pairs.deep_view(),
                blocks.deep_view(),
                refs.deep_view(),
            ),
        decreases n - cp,
    {
        proof {
            lemma_indent_end(ts, cp as int);
        }
        let mut e = cp;
        while e < n && matches!(&tokens[e], Token::Indent)
            invariant
                ts == tokens.deep_view(),
                n == ts.len(),
                cp <= e <= n,
                indent_end(ts, cp as int) == indent_end(ts, e as int),
            decreases n - e,
        {
            e += 1;
        }
        proof {
            assert(indent_end(ts, e as int) == e);
        }
        if e >= n {
            proof {
                assert(spec_parse_body(
                    ts,
                    cp as int,
                    cl as int,
                    depth as int,
                    allow_refs,
                    pairs.deep_view(),
                    blocks.deep_view(),
                    refs.deep_view(),
                ) == Ok::<_, SynErrV>(
                    (pairs.deep_view(), blocks.deep_view(), refs.deep_view(), e as int, cl as int),
                ));
            }
            return Ok((pairs, blocks, refs, e, cl));
        }
        let is_newline = matches!(&tokens[e], Token::NewLine(_));
        if is_newline {
            proof {
                assert(spec_parse_body(
                    ts,
                    cp as int,
                    cl as int,
                    depth as int,
                    allow_refs,
                    pairs.deep_view(),
                    blocks.deep_view(),
                    refs.deep_view(),
                ) == spec_parse_body(
                    ts,
                    e + 1,
                    cl + 1,
                    depth as int,
                    allow_refs,
                    pairs.deep_view(),
                    blocks.deep_view(),
                    refs.deep_view(),
                ));
            }
            cp = e + 1;
            cl = cl + 1;
            continue ;
        }
        let count = e - cp;
        if count < depth {
            proof {
                assert(spec_parse_body(
                    ts,
                    cp as int,
                    cl as int,
                    depth as int,
                    allow_refs,
                    pairs.deep_view(),
                    blocks.deep_view(),
                    refs.deep_view(),
                ) == Ok::<_, SynErrV>(
                    (pairs.deep_view(), blocks.deep_view(), refs.deep_view(), cp as int, cl as int),
                ));
            }
            return Ok((pairs, blocks, refs, cp, cl));
        }
        if count > depth {
            return Err(
                SyntaxError {
                    line: cl,
                    expected: String::from_str("indentation"),
                    found: String::from_str("Indent"),
                },
            );
        }
        let is_ident = matches!(&tokens[e], Token::Identifier(_));
        let is_ref = matches!(&tokens[e], Token::Reference);
        if is_ident {
            let w = match &tokens[e] {
                Token::Identifier(name) => name.clone(),
                _ => String::new(),
            };
            if !(e + 1 < n && matches!(&tokens[e + 1], Token::Colon)) {
                return Err(
                    SyntaxError {
                        line: cl,
                        expected: String::from_str("Colon"),
                        found: name_of(tokens, e + 1),
                    },
                );
            }
            if e + 2 < n && matches!(&tokens[e + 2], Token::NewLine(_)) {
                // a nested block header
                match parse_body(tokens, e + 3, cl + 1, depth + 1, false) {
                    Ok((bp, bb, _br, p2, l2)) => {
                        let ghost target = spec_parse_body(
                            ts,
                            pos_clamp(e + 3, ts.len() as int, p2 as int),
                            l2 as int,
                            depth as int,
                            allow_refs,
                            pairs.deep_view(),
                            upsert(
                                blocks.deep_view(),
                                w@,
                                BlockV { id: w@, pairs: bp.deep_view(), blocks: bb.deep_view() },
                            ),
                            refs.deep_view(),
                        );
                        proof {
                            assert(pos_clamp(e + 3, ts.len() as int, p2 as int) == p2 as int);
                            assert(spec_parse_body(
                                ts,
                                cp as int,
                                cl as int,
                                depth as int,
                                allow_refs,
                                pairs.deep_view(),
                                blocks.deep_view(),
                                refs.deep_view(),
                            ) == target);
                        }
                        let blk = Block { id: w.clone(), pairs: bp, blocks: bb };
                        blocks.insert(w, blk);
                        cp = p2;
                        cl = l2;
                    },
                    Err(err) => {
                        return Err(err);
                    },
                }
            } else {
                // a pair
                match parse_value(tokens, e + 2, cl) {
                    Ok((v, p2)) => {
                        match parse_line_end(tokens, p2, cl) {
                            Ok((p3, l3)) => {
                                proof {
                                    assert(pos_clamp(e + 3, ts.len() as int, p3 as int)
                                        == p3 as int);
                                    assert(spec_parse_body(
                                        ts,
                                        cp as int,
                                        cl as int,
                                        depth as int,
                                        allow_refs,
                                        pairs.deep_view(),
                                        blocks.deep_view(),
                                        refs.deep_view(),
                                    ) == spec_parse_body(
                                        ts,
                                        p3 as int,
                                        l3 as int,
                                        depth as int,
                                        allow_refs,
                                        upsert(pairs.deep_view(), w@, v.deep_view()),
                                        blocks.deep_view(),
                                        refs.deep_view(),
                                    ));
                                }
                                pairs.insert(w, v);
                                cp = p3;
                                cl = l3;
                            },
                            Err(err) => {
                                return Err(err);
                            },
                        }
                    },
                    Err(err) => {
                        return Err(err);
                    },
                }
            }
        } else if is_ref && allow_refs {
            if !(e + 1 < n && matches!(&tokens[e + 1], Token::Identifier(_))) {
                return Err(
                    SyntaxError {
                        line: cl,
                        expected: String::from_str("Identifier"),
                        found: name_of(tokens, e + 1),
                    },
                );
            }
            if !(e + 2 < n && matches!(&tokens[e + 2], Token::Colon)) {
                return Err(
                    SyntaxError {
                        line: cl,
                        expected: String::from_str("Colon"),
                        found: name_of(tokens, e + 2),
                    },
                );
            }
            let w = match &tokens[e + 1] {
                Token::Identifier(name) => name.clone(),
                _ => String::new(),
            };
            match parse_value(tokens, e + 3, cl) {
                Ok((v, p2)) => {
                    match parse_line_end(tokens, p2, cl) {
                        Ok((p3, l3)) => {
                            proof {
                                assert(pos_clamp(e + 4, ts.len() as int, p3 as int) == p3 as int);
                                assert(spec_parse_body(
                                    ts,
                                    cp as int,
                                    cl as int,
                                    depth as int,
                                    allow_refs,
                                    pairs.deep_view(),
                                    blocks.deep_view(),
                                    refs.deep_view(),
                                ) == spec_parse_body(
                                    ts,
                                    p3 as int,
                                    l3 as int,
                                    depth as int,
                                    allow_refs,
                                    pairs.deep_view(),
                                    blocks.deep_view(),
                                    upsert(refs.deep_view(), w@, v.deep_view()),
                                ));
                            }
                            refs.insert(w, v);
                            cp = p3;
                            cl = l3;
                        },
                        Err(err) => {
                            return Err(err);
                        },
                    }
                },
                Err(err) => {
                    return Err(err);
                },
            }
        } else {
            return Err(
                SyntaxError {
                    line: cl,
                    expected: String::from_str("Identifier"),
                    found: name_of(tokens, e),
                },
            );
        }
    }
}

/// The structural parser: its `parse` turns a token sequence into a
/// [`Document`].
pub struct DMLParser;

impl DMLParser {
    /// Parse `tokens` into a document, or fail fast with the first grammar
    /// mismatch.  The result is exactly `spec_parse` of the tokens.
    #[verifier::rlimit(60)]
    pub fn parse(tokens: &Vec<Token>) -> (r: Result<Document, SyntaxError>)
        requires
            tokens@.len() < usize::MAX,
        ensures
            match r {
                Ok(d) => spec_parse(tokens.deep_view()) == Ok::<DocumentV, SynErrV>(d.deep_view()),
                Err(e) => spec_parse(tokens.deep_view()) == Err::<DocumentV, SynErrV>(
                    e.deep_view(),
                ),
            },
    {
        let ghost ts = tokens.deep_view();
        let n = tokens.len();
        let mut doc = Document::new();
        let mut cp: usize = 0;
        let mut cl: usize = 1;
        proof {
            assert(doc.deep_view() =~= (DocumentV {
                variables: Seq::empty(),
                items: Seq::empty(),
                groups: Seq::empty(),
            }));
        }
        loop
            invariant
                ts == tokens.deep_view(),
                n == ts.len(),
                n < usize::MAX,
                cp <= n,
                1 <= cl <= cp + 1,
                spec_parse(ts) == spec_parse_top(ts, cp as int, cl as int, doc.deep_view()),
            decreases n - cp,
        {
            if cp >= n {
                proof {
                    assert(spec_parse_top(ts, cp as int, cl as int, doc.deep_view())
                        == Ok::<DocumentV, SynErrV>(doc.deep_view()));
                }
                return Ok(doc);
            }
            let is_item = matches!(&tokens[cp], Token::Item);
            let is_group = matches!(&tokens[cp], Token::Group);
            match &tokens[cp] {
                Token::NewLine(_) => {
                    proof {
                        assert(spec_parse_top(ts, cp as int, cl as int, doc.deep_view())
                            == spec_parse_top(ts, cp + 1, cl + 1, doc.deep_view()));
                    }
                    cp = cp + 1;
                    cl = cl + 1;
                },
                Token::From | Token::Import => {
                    proof {
                        lemma_newline_end(ts, cp + 1);
                    }
                    let mut q = cp + 1;
                    while q < n && !matches!(&tokens[q], Token::NewLine(_))
                        invariant
                            ts == tokens.deep_view(),
                            n == ts.len(),
                            cp + 1 <= q <= n,
                            newline_end(ts, cp + 1) == newline_end(ts, q as int),
                        decreases n - q,
                    {
                        q += 1;
                    }
                    proof {
                        assert(newline_end(ts, q as int) == q);
                    }
                    if q >= n {
                        proof {
                            assert(spec_parse_top(ts, cp as int, cl as int, doc.deep_view())
                                == Ok::<DocumentV, SynErrV>(doc.deep_view()));
                        }
                        return Ok(doc);
                    }
                    proof {
                        assert(spec_parse_top(ts, cp as int, cl as int, doc.deep_view())
                            == spec_parse_top(ts, q + 1, cl + 1, doc.deep_view()));
                    }
                    cp = q + 1;
                    cl = cl + 1;
                },
                Token::Identifier(name) => {
                    let w = name.clone();
                    if !(cp + 1 < n && matches!(&tokens[cp + 1], Token::Colon)) {
                        return Err(
                            SyntaxError {
                                line: cl,
                                expected: String::from_str("Colon"),
                                found: name_of(tokens, cp + 1),
                            },
                        );
                    }
                    match parse_value(tokens, cp + 2, cl) {
                        Ok((v, p2)) => {
                            match parse_line_end(tokens, p2, cl) {
                                Ok((p3, l3)) => {
                                    proof {
                                        assert(pos_clamp(cp + 3, ts.len() as int, p3 as int)
                                            == p3 as int);
                                        assert(spec_parse_top(
                                            ts,
                                            cp as int,
                                            cl as int,
                                            doc.deep_view(),
                                        ) == spec_parse_top(
                                            ts,
                                            p3 as int,
                                            l3 as int,
                                            DocumentV {
                                                variables: upsert(
                                                    doc.deep_view().variables,
                                                    w@,
                                                    v.deep_view(),
                                                ),
                                                ..doc.deep_view()
                                            },
                                        ));
                                    }
                                    doc.variables.insert(w, v);
                                    cp = p3;
                                    cl = l3;
                                },
                                Err(err) => {
                                    return Err(err);
                                },
                            }
                        },
                        Err(err) => {
                            return Err(err);
                        },
                    }
                },
                _ => {
                    if is_item || is_group {
                        if !(cp + 1 < n && matches!(&tokens[cp + 1], Token::Identifier(_))) {
                            return Err(
                                SyntaxError {
                                    line: cl,
                                    expected: String::from_str("Identifier"),
                                    found: name_of(tokens, cp + 1),
                                },
                            );
                        }
                        if !(cp + 2 < n && matches!(&tokens[cp + 2], Token::Colon)) {
                            return Err(
                                SyntaxError {
                                    line: cl,
                                    expected: String::from_str("Colon"),
                                    found: name_of(tokens, cp + 2),
                                },
                            );
                        }
                        if !(cp + 3 < n && matches!(&tokens[cp + 3], Token::NewLine(_))) {
                            return Err(
                                SyntaxError {
                                    line: cl,
                                    expected: String::from_str("NewLine"),
                                    found: name_of(tokens, cp + 3),
                                },
                            );
                        }
                        let w = match &tokens[cp + 1] {
                            Token::Identifier(name) => name.clone(),
                            _ => String::new(),
                        };
                        match parse_body(tokens, cp + 4, cl + 1, 1, is_group) {
                            Ok((bp, bb, br, p2, l2)) => {
                                proof {
                                    assert(pos_clamp(cp + 4, ts.len() as int, p2 as int)
                                        == p2 as int);
                                }
                                if is_item {
                                    proof {
                                        assert(spec_parse_top(
                                            ts,
                                            cp as int,
                                            cl as int,
                                            doc.deep_view(),
                                        ) == spec_parse_top(
                                            ts,
                                            p2 as int,
                                            l2 as int,
                                            DocumentV {
                                                items: upsert(
                                                    doc.deep_view().items,
                                                    w@,
                                                    ItemV {
                                                        id: w@,
                                                        pairs: bp.deep_view(),
                                                        blocks: bb.deep_view(),
                                                    },
                                                ),
                                                ..doc.deep_view()
                                            },
                                        ));
                                    }
                                    let it = Item { id: w.clone(), pairs: bp, blocks: bb };
                                    doc.items.insert(w, it);
                                } else {
                                    proof {
                                        assert(spec_parse_top(
                                            ts,
                                            cp as int,
                                            cl as int,
                                            doc.deep_view(),
                                        ) == spec_parse_top(
                                            ts,
                                            p2 as int,
                                            l2 as int,
                                            DocumentV {
                                                groups: upsert(
                                                    doc.deep_view().groups,
                                                    w@,
                                                    GroupV {
                                                        id: w@,
                                                        pairs: bp.deep_view(),
                                                        blocks: bb.deep_view(),
                                                        reference: br.deep_view(),
                                                    },
                                                ),
                                                ..doc.deep_view()
                                            },
                                        ));
                                    }
                                    let g = Group {
                                        id: w.clone(),
                                        pairs: bp,
                                        blocks: bb,
                                        reference: br,
                                    };
                                    doc.groups.insert(w, g);
                                }
                                cp = p2;
                                cl = l2;
                            },
                            Err(err) => {
                                return Err(err);
                            },
                        }
                    } else {
                        return Err(
                            SyntaxError {
                                line: cl,
                                expected: String::from_str("Item, Group or Identifier"),
                                found: name_of(tokens, cp),
                            },
                        );
                    }
                },
            }
        }
    }
}

} // verus!
