//! A verified parser and resolver for DML, an indentation-sensitive
//! declarative data language.
//!
//! A DML document declares scalar variables (`x: 5`), translatable items
//! (`Item Stone:` followed by an indented body of key/value pairs and nested
//! blocks), and groups (`Group G:` whose body may additionally hold weighted
//! references `&Stone: 1` to other entities).  The library turns a raw text
//! buffer into a fully resolved in-memory [`model::Document`] in three
//! verified stages:
//!
//! 1. [`token::tokenize`] — text to a flat token sequence, with line numbers
//!    and 2-space indentation units as first-class tokens;
//! 2. [`parser::DMLParser`] — tokens to a declaration tree;
//! 3. [`resolver`] — substitution of variable references by their bound
//!    scalar values, with forward references allowed.
//!
//! Each stage's executable function is proved equal to a specification
//! function over the view of its input, so the whole pipeline is
//! deterministic by construction.

pub mod json;
pub mod laws;
pub mod model;
pub mod parser;
pub mod resolver;
pub mod token;

pub use token::Token;
pub use token::TokenKind;

use vstd::prelude::*;

use crate::model::Document;
use crate::model::DocumentV;
use crate::parser::DMLParser;
use crate::parser::SynErrV;
use crate::parser::SyntaxError;
use crate::resolver::ResErrV;
use crate::resolver::ResolveError;
use crate::token::LexError;
use crate::token::tokenize;

verus! {

/// Any failure of the pipeline: lexical, grammatical, or a resolution
/// failure.
#[derive(Debug, PartialEq, Eq)]
pub enum DmlError {
    Lex(LexError),
    Syntax(SyntaxError),
    Resolve(ResolveError),
}

/// The mathematical model of a [`DmlError`].
pub enum DmlErrV {
    Lex(int),
    Syntax(SynErrV),
    Resolve(ResErrV),
}

impl DeepView for DmlError {
    type V = DmlErrV;

    open spec fn deep_view(&self) -> DmlErrV {
        match self {
            DmlError::Lex(e) => DmlErrV::Lex(e.line as int),
            DmlError::Syntax(e) => DmlErrV::Syntax(e.deep_view()),
            DmlError::Resolve(e) => DmlErrV::Resolve(e.deep_view()),
        }
    }
}

/// The whole pipeline: text to tokens to tree to resolved document.
pub open spec fn spec_pipeline(s: Seq<char>) -> Result<DocumentV, DmlErrV> {
    match token::spec_tokenize(s, 0, 1) {
        Ok(ts) => match parser::spec_parse(ts) {
            Ok(d) => match resolver::spec_resolve(d) {
                Ok(r) => Ok(r),
                Err(e) => Err(DmlErrV::Resolve(e)),
            },
            Err(e) => Err(DmlErrV::Syntax(e)),
        },
        Err(line) => Err(DmlErrV::Lex(line)),
    }
}

/// Run the whole pipeline on one DML source text: tokenize, parse, and
/// resolve.  The result is exactly `spec_pipeline` of the text.
pub fn parse_document(text: &str) -> (r: Result<Document, DmlError>)
    requires
        text@.len() < usize::MAX,
    ensures
        match r {
            Ok(d) => spec_pipeline(text@) == Ok::<DocumentV, DmlErrV>(d.deep_view()),
            Err(e) => spec_pipeline(text@) == Err::<DocumentV, DmlErrV>(e.deep_view()),
        },
{
    let toks = match tokenize(text) {
        Ok(ts) => ts,
        Err(e) => {
            return Err(DmlError::Lex(e));
        },
    };
    let doc = match DMLParser::parse(&toks) {
        Ok(d) => d,
        Err(e) => {
            return Err(DmlError::Syntax(e));
        },
    };
    match resolver::resolve(&doc) {
        Ok(r) => Ok(r),
        Err(e) => Err(DmlError::Resolve(e)),
    }
}

} // verus!
