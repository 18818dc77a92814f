use vstd::prelude::*;

use crate::beancount::{BeancountDirective, BeancountTransformer};
use crate::models::{Directive, ZhangString};
use crate::parser::{parse_zhang, read_as, ParseError};
use crate::span::Spanned;

verus! {

/// The file that a directive asks to read next: the file of an `include`, none for others.
pub open spec fn included_file(d: Directive) -> Option<Seq<char>> {
    match d {
        Directive::Include(i) => Some(i.file.content()),
        _ => None,
    }
}

/// The characters of a string, in a string of their own.
fn plain_copy(s: &ZhangString) -> (r: String)
    ensures
        r@ == s.content(),
{
    match s {
        ZhangString::UnquoteString(t) => t.clone(),
        ZhangString::QuoteString(t) => t.clone(),
    }
}

/// Reads ledger files written in zhang's own text format.
#[derive(Debug, Clone, Copy, Default)]
pub struct TextTransformer {}

impl TextTransformer {
    /// The directives of a file; see `parse_zhang`.
    pub fn parse(&self, content: &str) -> (r: Result<Vec<Spanned<Directive>>, ParseError>)
        ensures
            read_as(content@, r),
    {
        parse_zhang(content)
    }

    /// The file that a directive asks to read next.
    pub fn go_next(&self, directive: &Spanned<Directive>) -> (r: Option<String>)
        ensures
            match r {
                Some(f) => included_file(directive.data) == Some(f@),
                None => included_file(directive.data) is None,
            },
    {
        match &directive.data {
            Directive::Include(inc) => Some(plain_copy(&inc.file)),
            _ => None,
        }
    }

    /// The directives of zhang files need no change.
    pub fn transform(&self, directives: Vec<Spanned<Directive>>) -> (r: Vec<Spanned<Directive>>)
        ensures
            r == directives,
    {
        directives
    }
}

impl BeancountTransformer {
    /// The file that a beancount directive asks to read next: that of an `include`.
    pub fn go_next(&self, directive: &Spanned<BeancountDirective>) -> (r: Option<String>)
        ensures
            match directive.data {
                BeancountDirective::Left(d) => match r {
                    Some(f) => included_file(d) == Some(f@),
                    None => included_file(d) is None,
                },
                BeancountDirective::Right(_) => r is None,
            },
    {
        match &directive.data {
            BeancountDirective::Left(Directive::Include(inc)) => Some(plain_copy(&inc.file)),
            _ => None,
        }
    }
}

} // verus!
