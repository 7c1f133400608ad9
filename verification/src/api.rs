//! What the HTTP functions decide, apart from the transport: the query
//! parameter they read and the error code they answer with.

use vstd::prelude::*;
use crate::error::{ParseError, ParseErrorView};
use crate::inline::{find_char, find_char_from};
use crate::service::{ServiceError, ServiceErrorView};
use crate::text::{chars_of, string_of};

verus! {

/// The message of a request to `GET /syntaxes` without a `syntax` parameter.
pub const MISSING_SYNTAX_MESSAGE: &'static str =
    "Paramètre 'syntax' manquant. Valeurs acceptées : markdown, html";

/// `seg` begins with `prefix`.
pub open spec fn has_prefix(seg: Seq<char>, prefix: Seq<char>) -> bool {
    prefix.len() <= seg.len() && seg.take(prefix.len() as int) == prefix
}

/// The value of the first `&`-separated segment of `q`, from index `start`
/// on, that begins with `prefix`: what follows `prefix` in that segment.
pub open spec fn param_from(q: Seq<char>, start: int, prefix: Seq<char>) -> Option<Seq<char>>
    decreases q.len() - start,
{
    if start < 0 || start > q.len() {
        None
    } else {
        let end = match find_char_from(q, start, '&') {
            Some(j) => j,
            None => q.len() as int,
        };
        let seg = q.subrange(start, end);
        if has_prefix(seg, prefix) {
            Some(seg.skip(prefix.len() as int))
        } else if start <= end < q.len() {
            param_from(q, end + 1, prefix)
        } else {
            None
        }
    }
}

/// The value of the parameter `key` in the query string `query`: the rest
/// of the first `&`-separated segment that begins with `key=`.
pub open spec fn query_param(query: Option<Seq<char>>, key: Seq<char>) -> Option<Seq<char>> {
    match query {
        Some(q) => param_from(q, 0, key.push('=')),
        None => None,
    }
}

/// Whether `q[start..end]` begins with `prefix`.
fn has_prefix_at(q: &Vec<char>, start: usize, end: usize, prefix: &Vec<char>) -> (r: bool)
    requires
        start <= end <= q@.len(),
    ensures
        r == has_prefix(q@.subrange(start as int, end as int), prefix@),
{
    let ghost seg = q@.subrange(start as int, end as int);
    if prefix.len() > end - start {
        return false;
    }
    let mut i: usize = 0;
    while i < prefix.len()
        invariant
            prefix@.len() <= end - start,
            start <= end <= q@.len(),
            seg == q@.subrange(start as int, end as int),
            i <= prefix@.len(),
            forall|j: int| 0 <= j < i ==> seg[j] == prefix@[j],
        decreases prefix@.len() - i,
    {
        if q[start + i] != prefix[i] {
            assert(seg.take(prefix@.len() as int)[i as int] != prefix@[i as int]);
            return false;
        }
        i = i + 1;
    }
    assert(seg.take(prefix@.len() as int) =~= prefix@);
    true
}

/// Reads the parameter `key` of the query string `query` (the part of a
/// URI after `?`, if any).
pub fn extract_query_param(query: Option<&str>, key: &str) -> (r: Option<String>)
    ensures
        match query_param(
            match query {
                Some(q) => Some(q@),
                None => None,
            },
            key@,
        ) {
            Some(v) => r matches Some(s) && s@ == v,
            None => r is None,
        },
{
    let q = match query {
        Some(text) => chars_of(text),
        None => {
            return None;
        },
    };
    let mut prefix = chars_of(key);
    prefix.push('=');
    let ghost target = param_from(q@, 0, prefix@);
    assert(prefix@ =~= key@.push('='));
    assert(query matches Some(text) && text@ == q@);
    let mut start: usize = 0;
    loop
        invariant
            start <= q@.len(),
            param_from(q@, start as int, prefix@) == target,
            target == param_from(q@, 0, prefix@),
            prefix@ == key@.push('='),
            query matches Some(text) && text@ == q@,
        decreases q@.len() - start,
    {
        let end = match find_char(&q, start, '&') {
            Some(j) => j,
            None => q.len(),
        };
        let ghost seg = q@.subrange(start as int, end as int);
        assert(end == match find_char_from(q@, start as int, '&') {
            Some(j) => j,
            None => q@.len() as int,
        });
        if has_prefix_at(&q, start, end, &prefix) {
            let value = string_of(&q, start + prefix.len(), end);
            proof {
                assert(seg.skip(prefix@.len() as int) =~= q@.subrange(
                    start + prefix@.len(),
                    end as int,
                ));
                assert(param_from(q@, start as int, prefix@) == Some(seg.skip(prefix@.len() as int)));
            }
            return Some(value);
        }
        if end < q.len() {
            start = end + 1;
        } else {
            return None;
        }
    }
}

/// The code that the HTTP conversion answers for each error.
pub open spec fn error_code_spec(e: ServiceErrorView) -> Seq<char> {
    match e {
        ServiceErrorView::UnsupportedSyntax(_) => "UNSUPPORTED_SYNTAX"@,
        ServiceErrorView::InputTooLarge { .. } => "INPUT_TOO_LARGE"@,
        ServiceErrorView::Parse(p) => match p {
            ParseErrorView::UnsupportedSymbol { .. } => "UNSUPPORTED_SYMBOL"@,
            ParseErrorView::NestingTooDeep { .. } => "NESTING_TOO_DEEP"@,
            ParseErrorView::UnclosedTag { .. } => "UNCLOSED_TAG"@,
            ParseErrorView::InvalidHtml(_) => "INVALID_HTML"@,
            ParseErrorView::InputTooLarge { .. } => "INPUT_TOO_LARGE"@,
        },
    }
}

/// The code that the HTTP conversion answers for the error `e`.
pub fn service_error_code(e: &ServiceError) -> (r: &'static str)
    ensures
        r@ == error_code_spec(e@),
{
    match e {
        ServiceError::UnsupportedSyntax(_) => "UNSUPPORTED_SYNTAX",
        ServiceError::InputTooLarge { .. } => "INPUT_TOO_LARGE",
        ServiceError::Parse(ParseError::UnsupportedSymbol { .. }) => "UNSUPPORTED_SYMBOL",
        ServiceError::Parse(ParseError::NestingTooDeep { .. }) => "NESTING_TOO_DEEP",
        ServiceError::Parse(ParseError::UnclosedTag { .. }) => "UNCLOSED_TAG",
        ServiceError::Parse(ParseError::InvalidHtml(_)) => "INVALID_HTML",
        ServiceError::Parse(ParseError::InputTooLarge { .. }) => "INPUT_TOO_LARGE",
    }
}

} // verus!
