//! The search filter semantics: what it means for a stored item to match
//! an `ItemFilter`, and an evaluator that compiles the free-text query once
//! and then decides each candidate row.
//!
//! All of the filter's constraints are conjunctive. A free-text query
//! requires every classified term to hold; system and type filters test
//! membership in a comma-separated allow-list; the event-type filter always
//! passes items of non-reserved types and passes reserved event items only
//! when their correlation id is in the given set; date bounds compare
//! timestamps as text, inclusively.

use vstd::prelude::*;
use vstd::utf8::encode_utf8;
use crate::model::{Item, ItemFilter};
use crate::query::{ExprSpec, QueryExpression};
use crate::regexes::{regex_compile, regex_match, regex_valid, RegexCache};
use crate::text::{
    bytes_le, bytes_le_exec, contains_ci, contains_ci_exec, parse_i64, parse_i64_spec,
    split_commas, split_commas_exec, str_eq,
};
use crate::tokenize::{tokenize_query, tokenize_spec};

verus! {

/// The classified terms of a free-text query.
pub open spec fn terms_of(q: Seq<char>) -> Seq<ExprSpec> {
    tokenize_spec(q).map_values(|t: Seq<char>| crate::query::expr_of(t))
}

/// Whether one classified term holds of an item.
pub open spec fn term_matches(it: Item, t: ExprSpec) -> bool {
    match t {
        ExprSpec::Text(v) => contains_ci(it.body@, encode_utf8(v)),
        ExprSpec::Regex(p) => regex_match(p, it.body@),
        ExprSpec::Id(v) => parse_i64_spec(encode_utf8(v)) == Some(it.summary.id),
        ExprSpec::EventId(v) => it.summary.event_id matches Some(e) && parse_i64_spec(
            encode_utf8(v),
        ) == Some(e),
        ExprSpec::Header(n, v) => exists|j: int|
            0 <= j < it.headers@.len() && (#[trigger] it.headers@[j]).name@ == n && contains_ci(
                it.headers@[j].value@,
                encode_utf8(v),
            ),
    }
}

/// Every term of the query holds of the item.
pub open spec fn query_matches(it: Item, q: Seq<char>) -> bool {
    forall|k: int| 0 <= k < terms_of(q).len() ==> term_matches(it, #[trigger] terms_of(q)[k])
}

/// The allow-list contains exactly this string.
pub open spec fn list_has_str(list: Seq<char>, x: Seq<char>) -> bool {
    split_commas(list).contains(x)
}

/// Some element of the allow-list spells this integer.
pub open spec fn list_has_i64(list: Seq<char>, x: i64) -> bool {
    exists|k: int|
        0 <= k < split_commas(list).len() && parse_i64_spec(
            encode_utf8(#[trigger] split_commas(list)[k]),
        ) == Some(x)
}

/// The two item types reserved for correlated events.
pub open spec fn is_reserved_event_type(t: Seq<char>) -> bool {
    t == "event_notification"@ || t == "event_payload"@
}

/// The event-type rule: items of a non-reserved type always pass; an item
/// of a reserved event type passes exactly when its entity event id is in
/// the given set.
pub open spec fn passes_event_type(it: Item, list: Seq<char>) -> bool {
    if it.summary.item_type matches Some(t) && is_reserved_event_type(t@) {
        it.summary.entity_event_id matches Some(e) && list_has_i64(list, e)
    } else {
        true
    }
}

/// The event-type filter, as a law: an item whose type is one of the two
/// reserved event types is included exactly when its entity event id is in
/// the given set; an item of any other type, or of none, always passes.
pub proof fn lemma_event_type_rule(it: Item, list: Seq<char>)
    ensures
        (it.summary.item_type matches Some(t) && is_reserved_event_type(t@)) ==> passes_event_type(
            it,
            list,
        ) == (it.summary.entity_event_id matches Some(e) && list_has_i64(list, e)),
        !(it.summary.item_type matches Some(t) && is_reserved_event_type(t@))
            ==> passes_event_type(it, list),
{
}

/// Whether an item satisfies every non-pagination constraint of the
/// filter. Pagination (id bounds, batch size) is deliberately not part of
/// this: the reported total counts exactly the items satisfying this
/// predicate.
pub open spec fn item_matches(it: Item, f: ItemFilter) -> bool {
    &&& match f.query {
        Some(q) => query_matches(it, q@),
        None => true,
    }
    &&& match f.system {
        Some(l) => it.summary.system matches Some(s) && list_has_str(l@, s@),
        None => true,
    }
    &&& match f.item_type {
        Some(l) => it.summary.item_type matches Some(t) && list_has_str(l@, t@),
        None => true,
    }
    &&& match f.event_type {
        Some(l) => passes_event_type(it, l@),
        None => true,
    }
    &&& match f.from {
        Some(d) => bytes_le(encode_utf8(d@), encode_utf8(it.summary.submit_date@)),
        None => true,
    }
    &&& match f.to {
        Some(d) => bytes_le(encode_utf8(it.summary.submit_date@), encode_utf8(d@)),
        None => true,
    }
}

/// The pagination window: inclusive id bounds.
pub open spec fn in_id_range(it: Item, f: ItemFilter) -> bool {
    &&& match f.first_item_id {
        Some(lo) => it.summary.id >= lo,
        None => true,
    }
    &&& match f.last_item_id {
        Some(hi) => it.summary.id <= hi,
        None => true,
    }
}

/// The query names a regex term whose pattern the regex engine rejects.
pub open spec fn has_invalid_regex(q: Seq<char>) -> bool {
    exists|k: int|
        0 <= k < terms_of(q).len() && ((#[trigger] terms_of(q)[k]) matches ExprSpec::Regex(p)
            && !regex_valid(p))
}

/// A malformed filter, rejected before any row is read.
#[derive(Debug, PartialEq, Eq)]
pub enum FilterError {
    /// A `regex:` term carries a pattern the regex engine rejects.
    InvalidRegex,
}

/// A filter compiled once per request: the query tokenized and classified,
/// the allow-lists split. Candidate rows are then decided against this.
pub struct CompiledFilter {
    pub terms: Vec<QueryExpression>,
    pub has_query: bool,
    pub systems: Option<Vec<String>>,
    pub types: Option<Vec<String>>,
    pub event_types: Option<Vec<String>>,
}

/// The compiled filter says exactly what the raw filter says.
pub open spec fn cf_wf(cf: CompiledFilter, f: ItemFilter) -> bool {
    &&& match f.query {
        Some(q) => cf.has_query && cf.terms@.map_values(|t: QueryExpression| t@) == terms_of(q@),
        None => !cf.has_query && cf.terms@.len() == 0,
    }
    &&& match f.system {
        Some(l) => cf.systems matches Some(v) && v.deep_view() == split_commas(l@),
        None => cf.systems is None,
    }
    &&& match f.item_type {
        Some(l) => cf.types matches Some(v) && v.deep_view() == split_commas(l@),
        None => cf.types is None,
    }
    &&& match f.event_type {
        Some(l) => cf.event_types matches Some(v) && v.deep_view() == split_commas(l@),
        None => cf.event_types is None,
    }
}

/// Every regex term of the compiled filter carries a valid pattern.
pub open spec fn cf_regexes_valid(cf: CompiledFilter) -> bool {
    forall|k: int|
        0 <= k < cf.terms@.len() ==> ((#[trigger] cf.terms@[k])@ matches ExprSpec::Regex(p)
            ==> regex_valid(p))
}

/// Compile a filter for one request: tokenize and classify the query,
/// split the allow-lists, and reject the request exactly when some regex
/// term's pattern is invalid.
pub fn compile_filter(f: &ItemFilter) -> (r: Result<CompiledFilter, FilterError>)
    ensures
        match r {
            Ok(cf) => {
                &&& cf_wf(cf, *f)
                &&& cf_regexes_valid(cf)
                &&& !(f.query matches Some(q) && has_invalid_regex(q@))
            },
            Err(e) => {
                &&& e is InvalidRegex
                &&& f.query matches Some(q) && has_invalid_regex(q@)
            },
        },
{
    let mut terms: Vec<QueryExpression> = Vec::new();
    let mut has_query = false;
    match &f.query {
        Some(q) => {
            has_query = true;
            let tokens = tokenize_query(q.as_str());
            let n = tokens.len();
            let mut i: usize = 0;
            while i < n
                invariant
                    f.query is Some,
                    n == tokens@.len(),
                    tokens.deep_view() == tokenize_spec(f.query.unwrap()@),
                    i <= n,
                    terms@.len() == i,
                    forall|k: int|
                        0 <= k < i ==> (#[trigger] terms@[k])@ == terms_of(f.query.unwrap()@)[k],
                    forall|k: int|
                        0 <= k < i ==> ((#[trigger] terms@[k])@ matches ExprSpec::Regex(p)
                            ==> regex_valid(p)),
                decreases n - i,
            {
                let e = QueryExpression::from(tokens[i].as_str());
                proof {
                    assert(tokens.deep_view()[i as int] == tokens@[i as int]@);
                    assert(terms_of(f.query.unwrap()@)[i as int] == crate::query::expr_of(
                        tokens@[i as int]@,
                    ));
                }
                if let QueryExpression::Regex(p) = &e {
                    if regex_compile(p.as_str()).is_none() {
                        proof {
                            assert(terms_of(f.query.unwrap()@)[i as int] matches ExprSpec::Regex(
                                pp,
                            ) && !regex_valid(pp));
                            assert(has_invalid_regex(f.query.unwrap()@));
                        }
                        return Err(FilterError::InvalidRegex);
                    }
                }
                terms.push(e);
                i = i + 1;
            }
            proof {
                assert(terms@.map_values(|t: QueryExpression| t@) =~= terms_of(
                    f.query.unwrap()@,
                ));
            }
        },
        None => {},
    }
    let systems = match &f.system {
        Some(l) => Some(split_commas_exec(l.as_str())),
        None => None,
    };
    let types = match &f.item_type {
        Some(l) => Some(split_commas_exec(l.as_str())),
        None => None,
    };
    let event_types = match &f.event_type {
        Some(l) => Some(split_commas_exec(l.as_str())),
        None => None,
    };
    let cf = CompiledFilter { terms, has_query, systems, types, event_types };
    proof {
        if f.query is Some {
            assert(!has_invalid_regex(f.query.unwrap()@)) by {
                assert(forall|k: int|
                    0 <= k < cf.terms@.len() ==> terms_of(f.query.unwrap()@)[k] == (
                    #[trigger] cf.terms@[k])@);
            }
        }
    }
    Ok(cf)
}

fn eval_term(it: &Item, t: &QueryExpression, cache: &mut RegexCache) -> (r: bool)
    requires
        old(cache).wf(),
        t@ matches ExprSpec::Regex(p) ==> regex_valid(p),
    ensures
        final(cache).wf(),
        r == term_matches(*it, t@),
{
    match t {
        QueryExpression::Text(v) => contains_ci_exec(it.body.as_slice(), v.as_str().as_bytes()),
        QueryExpression::Regex(p) => {
            match cache.is_match(p.as_str(), it.body.as_slice()) {
                Some(b) => b,
                None => {
                    proof {
                        assert(false);
                    }
                    false
                },
            }
        },
        QueryExpression::Id(v) => {
            match parse_i64(v.as_str().as_bytes()) {
                Some(x) => x == it.summary.id,
                None => false,
            }
        },
        QueryExpression::EventId(v) => {
            match (parse_i64(v.as_str().as_bytes()), &it.summary.event_id) {
                (Some(x), Some(e)) => x == *e,
                _ => false,
            }
        },
        QueryExpression::Header(name, v) => {
            let n = it.headers.len();
            let mut j: usize = 0;
            while j < n
                invariant
                    n == it.headers@.len(),
                    cache.wf(),
                    t@ == ExprSpec::Header(name@, v@),
                    j <= n,
                    forall|l: int|
                        0 <= l < j ==> !((#[trigger] it.headers@[l]).name@ == name@ && contains_ci(
                            it.headers@[l].value@,
                            encode_utf8(v@),
                        )),
                decreases n - j,
            {
                if str_eq(it.headers[j].name.as_str(), name.as_str()) && contains_ci_exec(
                    it.headers[j].value.as_slice(),
                    v.as_str().as_bytes(),
                ) {
                    proof {
                        assert((#[trigger] it.headers@[j as int]).name@ == name@ && contains_ci(
                            it.headers@[j as int].value@,
                            encode_utf8(v@),
                        ));
                    }
                    return true;
                }
                j = j + 1;
            }
            false
        },
    }
}

fn list_contains_str(list: &Vec<String>, x: &str) -> (r: bool)
    ensures
        r == list.deep_view().contains(x@),
{
    let n = list.len();
    let mut i: usize = 0;
    while i < n
        invariant
            n == list@.len(),
            i <= n,
            forall|j: int| 0 <= j < i ==> list.deep_view()[j] != x@,
        decreases n - i,
    {
        if str_eq(list[i].as_str(), x) {
            proof {
                assert(list.deep_view()[i as int] == x@);
            }
            return true;
        }
        i = i + 1;
    }
    false
}

fn list_contains_i64(list: &Vec<String>, x: i64) -> (r: bool)
    ensures
        r == exists|k: int|
            0 <= k < list.deep_view().len() && parse_i64_spec(
                encode_utf8(#[trigger] list.deep_view()[k]),
            ) == Some(x),
{
    let n = list.len();
    let mut i: usize = 0;
    while i < n
        invariant
            n == list@.len(),
            i <= n,
            forall|j: int|
                0 <= j < i ==> parse_i64_spec(encode_utf8(#[trigger] list.deep_view()[j]))
                    != Some(x),
        decreases n - i,
    {
        match parse_i64(list[i].as_str().as_bytes()) {
            Some(y) => {
                if y == x {
                    proof {
                        assert(parse_i64_spec(encode_utf8(list.deep_view()[i as int])) == Some(
                            x,
                        ));
                    }
                    return true;
                }
            },
            None => {},
        }
        i = i + 1;
    }
    false
}

/// Decide whether one stored item satisfies the filter's non-pagination
/// constraints.
pub fn item_matches_exec(
    it: &Item,
    cf: &CompiledFilter,
    f: &ItemFilter,
    cache: &mut RegexCache,
) -> (r: bool)
    requires
        cf_wf(*cf, *f),
        cf_regexes_valid(*cf),
        old(cache).wf(),
    ensures
        final(cache).wf(),
        r == item_matches(*it, *f),
{
    let nt = cf.terms.len();
    let mut k: usize = 0;
    while k < nt
        invariant
            nt == cf.terms@.len(),
            k <= nt,
            cf_wf(*cf, *f),
            cf_regexes_valid(*cf),
            cache.wf(),
            forall|l: int| 0 <= l < k ==> term_matches(*it, (#[trigger] cf.terms@[l])@),
        decreases nt - k,
    {
        if !eval_term(it, &cf.terms[k], cache) {
            proof {
                match &f.query {
                    Some(q) => {
                        assert(terms_of(q@)[k as int] == cf.terms@[k as int]@);
                        assert(!query_matches(*it, q@));
                    },
                    None => {},
                }
            }
            return false;
        }
        k = k + 1;
    }
    proof {
        match &f.query {
            Some(q) => {
                assert(forall|l: int|
                    0 <= l < terms_of(q@).len() ==> #[trigger] terms_of(q@)[l] == cf.terms@[l]@);
                assert(query_matches(*it, q@));
            },
            None => {},
        }
    }
    let sys_ok = match (&cf.systems, &it.summary.system) {
        (Some(list), Some(s)) => list_contains_str(list, s.as_str()),
        (Some(_), None) => false,
        (None, _) => true,
    };
    if !sys_ok {
        return false;
    }
    let type_ok = match (&cf.types, &it.summary.item_type) {
        (Some(list), Some(t)) => list_contains_str(list, t.as_str()),
        (Some(_), None) => false,
        (None, _) => true,
    };
    if !type_ok {
        return false;
    }
    let ev_ok = match &cf.event_types {
        Some(list) => {
            let reserved = match &it.summary.item_type {
                Some(t) => str_eq(t.as_str(), "event_notification") || str_eq(
                    t.as_str(),
                    "event_payload",
                ),
                None => false,
            };
            if reserved {
                match &it.summary.entity_event_id {
                    Some(e) => list_contains_i64(list, *e),
                    None => false,
                }
            } else {
                true
            }
        },
        None => true,
    };
    if !ev_ok {
        return false;
    }
    let from_ok = match &f.from {
        Some(d) => bytes_le_exec(d.as_str().as_bytes(), it.summary.submit_date.as_str().as_bytes()),
        None => true,
    };
    if !from_ok {
        return false;
    }
    let to_ok = match &f.to {
        Some(d) => bytes_le_exec(it.summary.submit_date.as_str().as_bytes(), d.as_str().as_bytes()),
        None => true,
    };
    to_ok
}

/// Decide whether an item lies inside the filter's inclusive id window.
pub fn in_id_range_exec(it: &Item, f: &ItemFilter) -> (r: bool)
    ensures
        r == in_id_range(*it, *f),
{
    let lo_ok = match &f.first_item_id {
        Some(lo) => it.summary.id >= *lo,
        None => true,
    };
    let hi_ok = match &f.last_item_id {
        Some(hi) => it.summary.id <= *hi,
        None => true,
    };
    lo_ok && hi_ok
}

} // verus!
