//! The query expression classifier: each tokenized term is mapped to a
//! semantic predicate by splitting on the first colon. Recognized prefixes
//! select id, event-id, regex and explicit body matches; any other prefix
//! names a header; a term without a colon is a plain body text match.

use vstd::prelude::*;
use crate::text::str_eq;

verus! {

/// The semantic predicate one term stands for.
#[derive(Debug, PartialEq, Eq)]
pub enum QueryExpression {
    /// Exact match on the item's correlation event id.
    EventId(String),
    /// Substring match against any header with the given name.
    Header(String, String),
    /// Exact match on the item id.
    Id(String),
    /// Regular-expression match against the body bytes.
    Regex(String),
    /// Substring match against the body.
    Text(String),
}

/// The spec-level shape of a classified term.
pub enum ExprSpec {
    EventId(Seq<char>),
    Header(Seq<char>, Seq<char>),
    Id(Seq<char>),
    Regex(Seq<char>),
    Text(Seq<char>),
}

impl View for QueryExpression {
    type V = ExprSpec;

    open spec fn view(&self) -> ExprSpec {
        match self {
            QueryExpression::EventId(v) => ExprSpec::EventId(v@),
            QueryExpression::Header(n, v) => ExprSpec::Header(n@, v@),
            QueryExpression::Id(v) => ExprSpec::Id(v@),
            QueryExpression::Regex(v) => ExprSpec::Regex(v@),
            QueryExpression::Text(v) => ExprSpec::Text(v@),
        }
    }
}

/// The position of the first colon at or after `i`, if any.
pub open spec fn first_colon(s: Seq<char>, i: int) -> Option<int>
    decreases s.len() - i
    when 0 <= i <= s.len()
{
    if i >= s.len() {
        None
    } else if s[i] == ':' {
        Some(i)
    } else {
        first_colon(s, i + 1)
    }
}

/// How one term is classified: split on the first colon; recognized
/// prefixes choose the predicate kind, an unknown prefix names a header,
/// and a term without a colon is body text.
pub open spec fn expr_of(s: Seq<char>) -> ExprSpec {
    match first_colon(s, 0) {
        Some(i) => {
            let name = s.subrange(0, i);
            let value = s.subrange(i + 1, s.len() as int);
            if name == "body"@ {
                ExprSpec::Text(value)
            } else if name == "event-id"@ {
                ExprSpec::EventId(value)
            } else if name == "id"@ {
                ExprSpec::Id(value)
            } else if name == "regex"@ {
                ExprSpec::Regex(value)
            } else {
                ExprSpec::Header(name, value)
            }
        },
        None => ExprSpec::Text(s),
    }
}

proof fn lemma_first_colon_at(s: Seq<char>, i: int)
    requires
        0 <= i < s.len(),
        s[i] == ':',
        forall|j: int| 0 <= j < i ==> s[j] != ':',
    ensures
        first_colon(s, 0) == Some(i),
    decreases i,
{
    lemma_first_colon_from(s, 0, i);
}

proof fn lemma_first_colon_from(s: Seq<char>, k: int, i: int)
    requires
        0 <= k <= i < s.len(),
        s[i] == ':',
        forall|j: int| k <= j < i ==> s[j] != ':',
    ensures
        first_colon(s, k) == Some(i),
    decreases i - k,
{
    if k < i {
        lemma_first_colon_from(s, k + 1, i);
    }
}

proof fn lemma_first_colon_none(s: Seq<char>, k: int)
    requires
        0 <= k <= s.len(),
        forall|j: int| k <= j < s.len() ==> s[j] != ':',
    ensures
        first_colon(s, k) is None,
    decreases s.len() - k,
{
    if k < s.len() {
        lemma_first_colon_none(s, k + 1);
    }
}

impl QueryExpression {
    /// Classify one tokenized term.
    pub fn from(value: &str) -> (r: QueryExpression)
        ensures
            r@ == expr_of(value@),
    {
        let n = value.unicode_len();
        let mut i: usize = 0;
        while i < n
            invariant
                n == value@.len(),
                i <= n,
                forall|j: int| 0 <= j < i ==> value@[j] != ':',
            decreases n - i,
        {
            if value.get_char(i) == ':' {
                proof {
                    lemma_first_colon_at(value@, i as int);
                }
                let name = value.substring_char(0, i);
                let val = value.substring_char(i + 1, n);
                return if str_eq(name, "body") {
                    QueryExpression::Text(val.to_owned())
                } else if str_eq(name, "event-id") {
                    QueryExpression::EventId(val.to_owned())
                } else if str_eq(name, "id") {
                    QueryExpression::Id(val.to_owned())
                } else if str_eq(name, "regex") {
                    QueryExpression::Regex(val.to_owned())
                } else {
                    QueryExpression::Header(name.to_owned(), val.to_owned())
                };
            }
            i = i + 1;
        }
        proof {
            lemma_first_colon_none(value@, 0);
        }
        QueryExpression::Text(value.to_owned())
    }
}

} // verus!
