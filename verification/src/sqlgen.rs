//! The search-query compiler: one parameterized, paginated, sorted,
//! count-accurate read, built as fixed SQL fragments plus positional
//! parameters. Every user-supplied value is bound as a parameter — the
//! regex pattern included, which is bound to a registered predicate — and
//! none is ever concatenated into the control text; the contract exhibits
//! the text as a concatenation of fixed fragments alone.

use vstd::prelude::*;
use crate::filter::terms_of;
use crate::model::ItemFilter;
use crate::query::{ExprSpec, QueryExpression};
use crate::text::{split_commas, split_commas_exec};
use crate::tokenize::tokenize_query;

verus! {

/// One bound parameter.
#[derive(Debug, PartialEq, Eq)]
pub enum SqlParam {
    Text(String),
    Int(i64),
    Uint(u32),
}

/// The spec-level image of one bound parameter.
pub enum SqlParamSpec {
    Text(Seq<char>),
    Int(i64),
    Uint(u32),
}

impl View for SqlParam {
    type V = SqlParamSpec;

    open spec fn view(&self) -> SqlParamSpec {
        match self {
            SqlParam::Text(s) => SqlParamSpec::Text(s@),
            SqlParam::Int(v) => SqlParamSpec::Int(*v),
            SqlParam::Uint(v) => SqlParamSpec::Uint(*v),
        }
    }
}

/// A compiled read: the SQL text, and the values bound to its
/// placeholders, in order.
pub struct SqlQuery {
    pub text: String,
    pub params: Vec<SqlParam>,
}

/// The fixed fragment one classified term contributes.
pub open spec fn term_sql(t: ExprSpec) -> Seq<char> {
    match t {
        ExprSpec::EventId(_) => " AND event_id = ?"@,
        ExprSpec::Header(_, _) =>
            " AND EXISTS (SELECT 1 FROM item_header WHERE item_id = id AND name = ? AND value LIKE '%' || ? || '%')"@,
        ExprSpec::Id(_) => " AND id = ?"@,
        ExprSpec::Regex(_) =>
            " AND EXISTS (SELECT 1 FROM item_body WHERE item_id = id AND matches(?, body))"@,
        ExprSpec::Text(_) =>
            " AND EXISTS (SELECT 1 FROM item_body WHERE item_id = id AND body LIKE '%' || ? || '%')"@,
    }
}

/// The parameters one classified term binds.
pub open spec fn term_params(t: ExprSpec) -> Seq<SqlParamSpec> {
    match t {
        ExprSpec::EventId(v) => seq![SqlParamSpec::Text(v)],
        ExprSpec::Header(n, v) => seq![SqlParamSpec::Text(n), SqlParamSpec::Text(v)],
        ExprSpec::Id(v) => seq![SqlParamSpec::Text(v)],
        ExprSpec::Regex(p) => seq![SqlParamSpec::Text(p)],
        ExprSpec::Text(v) => seq![SqlParamSpec::Text(v)],
    }
}

/// The fragments of all terms, in order.
pub open spec fn terms_sql(ts: Seq<ExprSpec>) -> Seq<char>
    decreases ts.len(),
{
    if ts.len() == 0 {
        Seq::empty()
    } else {
        terms_sql(ts.drop_last()) + term_sql(ts.last())
    }
}

/// The parameters of all terms, in order.
pub open spec fn terms_params(ts: Seq<ExprSpec>) -> Seq<SqlParamSpec>
    decreases ts.len(),
{
    if ts.len() == 0 {
        Seq::empty()
    } else {
        terms_params(ts.drop_last()) + term_params(ts.last())
    }
}

/// `n` placeholders for an IN list.
pub open spec fn in_sql(n: int) -> Seq<char>
    decreases n,
{
    if n <= 0 {
        Seq::empty()
    } else if n == 1 {
        "?"@
    } else {
        in_sql(n - 1) + ", ?"@
    }
}

/// The elements of an allow-list, each bound as text.
pub open spec fn list_params(xs: Seq<Seq<char>>) -> Seq<SqlParamSpec>
    decreases xs.len(),
{
    if xs.len() == 0 {
        Seq::empty()
    } else {
        list_params(xs.drop_last()) + seq![SqlParamSpec::Text(xs.last())]
    }
}

/// The allow-list constraints of the compiled text.
pub open spec fn sql_text_lists(f: ItemFilter) -> Seq<char> {
    (match f.system {
        Some(l) => " AND system IN ("@ + in_sql(split_commas(l@).len() as int) + ")"@,
        None => Seq::empty(),
    }) + (match f.item_type {
        Some(l) => " AND type IN ("@ + in_sql(split_commas(l@).len() as int) + ")"@,
        None => Seq::empty(),
    }) + (match f.event_type {
        Some(l) => " AND (type NOT IN ('event_notification', 'event_payload') OR entity_event_id IN ("@
            + in_sql(split_commas(l@).len() as int) + "))"@,
        None => Seq::empty(),
    })
}

/// The date-range constraints of the compiled text.
pub open spec fn sql_text_dates(f: ItemFilter) -> Seq<char> {
    (match f.from {
        Some(_) => " AND submit_date >= ?"@,
        None => Seq::empty(),
    }) + (match f.to {
        Some(_) => " AND submit_date <= ?"@,
        None => Seq::empty(),
    })
}

/// The filtering half of the compiled text: the windowed inner select
/// with every conjunctive constraint.
pub open spec fn sql_text_filters(f: ItemFilter) -> Seq<char> {
    "SELECT * FROM (SELECT id, system, type, event_id, entity_event_id, user_agent, submit_date, COUNT(1) OVER() total_items FROM item WHERE 1 = 1"@
        + (match f.query {
        Some(q) => " AND (1 = 1"@ + terms_sql(terms_of(q@)) + ")"@,
        None => Seq::empty(),
    }) + sql_text_lists(f) + sql_text_dates(f) + ") WHERE 1 = 1"@
}

/// The paging half of the compiled text: id bounds, order and page size.
pub open spec fn sql_text_paging(f: ItemFilter) -> Seq<char> {
    (match f.first_item_id {
        Some(_) => " AND id >= ?"@,
        None => Seq::empty(),
    }) + (match f.last_item_id {
        Some(_) => " AND id <= ?"@,
        None => Seq::empty(),
    }) + " ORDER BY id"@ + (if f.asc == Some(true) {
        Seq::empty()
    } else {
        " DESC"@
    }) + (match f.batch_size {
        Some(_) => " LIMIT ?"@,
        None => Seq::empty(),
    })
}

/// The SQL text the filter compiles to: fixed fragments only, with one
/// placeholder per bound value.
pub open spec fn sql_text_spec(f: ItemFilter) -> Seq<char> {
    sql_text_filters(f) + sql_text_paging(f)
}

/// The values the allow-lists bind.
pub open spec fn sql_params_lists(f: ItemFilter) -> Seq<SqlParamSpec> {
    (match f.system {
        Some(l) => list_params(split_commas(l@)),
        None => Seq::empty(),
    }) + (match f.item_type {
        Some(l) => list_params(split_commas(l@)),
        None => Seq::empty(),
    }) + (match f.event_type {
        Some(l) => list_params(split_commas(l@)),
        None => Seq::empty(),
    })
}

/// The values the date range binds.
pub open spec fn sql_params_dates(f: ItemFilter) -> Seq<SqlParamSpec> {
    (match f.from {
        Some(d) => seq![SqlParamSpec::Text(d@)],
        None => Seq::empty(),
    }) + (match f.to {
        Some(d) => seq![SqlParamSpec::Text(d@)],
        None => Seq::empty(),
    })
}

/// The values the filtering half binds, in placeholder order.
pub open spec fn sql_params_filters(f: ItemFilter) -> Seq<SqlParamSpec> {
    (match f.query {
        Some(q) => terms_params(terms_of(q@)),
        None => Seq::empty(),
    }) + sql_params_lists(f) + sql_params_dates(f)
}

/// The values the paging half binds.
pub open spec fn sql_params_paging(f: ItemFilter) -> Seq<SqlParamSpec> {
    (match f.first_item_id {
        Some(v) => seq![SqlParamSpec::Int(v)],
        None => Seq::empty(),
    }) + (match f.last_item_id {
        Some(v) => seq![SqlParamSpec::Int(v)],
        None => Seq::empty(),
    }) + (match f.batch_size {
        Some(v) => seq![SqlParamSpec::Uint(v)],
        None => Seq::empty(),
    })
}

/// The values the filter binds, in placeholder order.
pub open spec fn sql_params_spec(f: ItemFilter) -> Seq<SqlParamSpec> {
    sql_params_filters(f) + sql_params_paging(f)
}

/// The parameter views, in order.
pub open spec fn params_view(ps: Seq<SqlParam>) -> Seq<SqlParamSpec> {
    ps.map_values(|p: SqlParam| p@)
}

fn push_terms(text: &mut String, params: &mut Vec<SqlParam>, q: &str)
    ensures
        final(text)@ == old(text)@ + " AND (1 = 1"@ + terms_sql(terms_of(q@)) + ")"@,
        params_view(final(params)@) == params_view(old(params)@) + terms_params(terms_of(q@)),
{
    let ghost t0 = text@;
    let ghost p0 = params_view(params@);
    text.append(" AND (1 = 1");
    let tokens = tokenize_query(q);
    let n = tokens.len();
    let ghost ts = terms_of(q@);
    let mut i: usize = 0;
    while i < n
        invariant
            n == tokens@.len(),
            tokens.deep_view() == crate::tokenize::tokenize_spec(q@),
            ts == terms_of(q@),
            i <= n,
            text@ == t0 + " AND (1 = 1"@ + terms_sql(ts.take(i as int)),
            params_view(params@) == p0 + terms_params(ts.take(i as int)),
        decreases n - i,
    {
        let e = QueryExpression::from(tokens[i].as_str());
        proof {
            assert(tokens.deep_view()[i as int] == tokens@[i as int]@);
            assert(ts[i as int] == crate::query::expr_of(tokens@[i as int]@));
            assert(ts.take(i + 1).drop_last() =~= ts.take(i as int));
            assert(ts.take(i + 1).last() == ts[i as int]);
        }
        let ghost pmid = params_view(params@);
        match &e {
            QueryExpression::EventId(v) => {
                text.append(" AND event_id = ?");
                params.push(SqlParam::Text(v.as_str().to_owned()));
            },
            QueryExpression::Header(name, v) => {
                text.append(
                    " AND EXISTS (SELECT 1 FROM item_header WHERE item_id = id AND name = ? AND value LIKE '%' || ? || '%')",
                );
                params.push(SqlParam::Text(name.as_str().to_owned()));
                params.push(SqlParam::Text(v.as_str().to_owned()));
            },
            QueryExpression::Id(v) => {
                text.append(" AND id = ?");
                params.push(SqlParam::Text(v.as_str().to_owned()));
            },
            QueryExpression::Regex(p) => {
                text.append(
                    " AND EXISTS (SELECT 1 FROM item_body WHERE item_id = id AND matches(?, body))",
                );
                params.push(SqlParam::Text(p.as_str().to_owned()));
            },
            QueryExpression::Text(v) => {
                text.append(
                    " AND EXISTS (SELECT 1 FROM item_body WHERE item_id = id AND body LIKE '%' || ? || '%')",
                );
                params.push(SqlParam::Text(v.as_str().to_owned()));
            },
        }
        proof {
            assert(text@ =~= t0 + " AND (1 = 1"@ + terms_sql(ts.take(i + 1)));
            assert(params_view(params@) =~= pmid + term_params(e@));
            assert(params_view(params@) =~= p0 + terms_params(ts.take(i + 1)));
        }
        i = i + 1;
    }
    proof {
        assert(ts.take(n as int) =~= ts);
    }
    text.append(")");
    proof {
        assert(text@ =~= t0 + " AND (1 = 1"@ + terms_sql(ts) + ")"@);
    }
}

fn push_in_list(text: &mut String, params: &mut Vec<SqlParam>, l: &str)
    ensures
        final(text)@ == old(text)@ + in_sql(split_commas(l@).len() as int),
        params_view(final(params)@) == params_view(old(params)@) + list_params(split_commas(l@)),
{
    let ghost t0 = text@;
    let ghost p0 = params_view(params@);
    let parts = split_commas_exec(l);
    let n = parts.len();
    let ghost xs = split_commas(l@);
    let mut i: usize = 0;
    while i < n
        invariant
            n == parts@.len(),
            parts.deep_view() == xs,
            xs == split_commas(l@),
            i <= n,
            text@ == t0 + in_sql(i as int),
            params_view(params@) == p0 + list_params(xs.take(i as int)),
        decreases n - i,
    {
        if i == 0 {
            text.append("?");
        } else {
            text.append(", ?");
        }
        let ghost pmid = params_view(params@);
        params.push(SqlParam::Text(parts[i].as_str().to_owned()));
        proof {
            assert(text@ =~= t0 + in_sql(i + 1));
            assert(xs.take(i + 1).drop_last() =~= xs.take(i as int));
            assert(xs.take(i + 1).last() == xs[i as int]);
            assert(parts.deep_view()[i as int] == parts@[i as int]@);
            assert(params_view(params@) =~= pmid.push(SqlParamSpec::Text(parts@[i as int]@)));
            assert(params_view(params@) =~= p0 + list_params(xs.take(i + 1)));
        }
        i = i + 1;
    }
    proof {
        assert(xs.take(n as int) =~= xs);
    }
}

/// Compile one search into SQL text and bound parameters. The text equals
/// a fixed-fragment skeleton determined only by which filter fields are
/// present and how many list elements and terms there are; every
/// user-supplied value lands in `params`, in placeholder order.
fn build_lists(f: &ItemFilter, text: &mut String, params: &mut Vec<SqlParam>)
    ensures
        final(text)@ == old(text)@ + sql_text_lists(*f),
        params_view(final(params)@) == params_view(old(params)@) + sql_params_lists(*f),
{
    let ghost t0 = text@;
    let ghost p0 = params_view(params@);
    match &f.system {
        Some(l) => {
            text.append(" AND system IN (");
            push_in_list(text, params, l.as_str());
            text.append(")");
        },
        None => (),
    }
    match &f.item_type {
        Some(l) => {
            text.append(" AND type IN (");
            push_in_list(text, params, l.as_str());
            text.append(")");
        },
        None => (),
    }
    match &f.event_type {
        Some(l) => {
            text.append(
                " AND (type NOT IN ('event_notification', 'event_payload') OR entity_event_id IN (",
            );
            push_in_list(text, params, l.as_str());
            text.append("))");
        },
        None => (),
    }
    proof {
        assert(text@ =~= t0 + sql_text_lists(*f));
        assert(params_view(params@) =~= p0 + sql_params_lists(*f));
    }
}

fn build_dates(f: &ItemFilter, text: &mut String, params: &mut Vec<SqlParam>)
    ensures
        final(text)@ == old(text)@ + sql_text_dates(*f),
        params_view(final(params)@) == params_view(old(params)@) + sql_params_dates(*f),
{
    let ghost t0 = text@;
    let ghost p0 = params_view(params@);
    match &f.from {
        Some(d) => {
            text.append(" AND submit_date >= ?");
            let ghost pm = params_view(params@);
            params.push(SqlParam::Text(d.as_str().to_owned()));
            proof {
                assert(params_view(params@) =~= pm.push(SqlParamSpec::Text(d@)));
            }
        },
        None => (),
    }
    match &f.to {
        Some(d) => {
            text.append(" AND submit_date <= ?");
            let ghost pm = params_view(params@);
            params.push(SqlParam::Text(d.as_str().to_owned()));
            proof {
                assert(params_view(params@) =~= pm.push(SqlParamSpec::Text(d@)));
            }
        },
        None => (),
    }
    proof {
        assert(text@ =~= t0 + sql_text_dates(*f));
        assert(params_view(params@) =~= p0 + sql_params_dates(*f));
    }
}

fn build_filters(f: &ItemFilter, text: &mut String, params: &mut Vec<SqlParam>)
    ensures
        final(text)@ == old(text)@ + sql_text_filters(*f),
        params_view(final(params)@) == params_view(old(params)@) + sql_params_filters(*f),
{
    let ghost t0 = text@;
    let ghost p0 = params_view(params@);
    text.append(
        "SELECT * FROM (SELECT id, system, type, event_id, entity_event_id, user_agent, submit_date, COUNT(1) OVER() total_items FROM item WHERE 1 = 1",
    );
    match &f.query {
        Some(q) => push_terms(text, params, q.as_str()),
        None => (),
    }
    build_lists(f, text, params);
    build_dates(f, text, params);
    text.append(") WHERE 1 = 1");
    proof {
        assert(text@ =~= t0 + sql_text_filters(*f));
        assert(params_view(params@) =~= p0 + sql_params_filters(*f));
    }
}

#[verifier::rlimit(100)]
fn build_paging(f: &ItemFilter, text: &mut String, params: &mut Vec<SqlParam>)
    ensures
        final(text)@ == old(text)@ + sql_text_paging(*f),
        params_view(final(params)@) == params_view(old(params)@) + sql_params_paging(*f),
{
    let ghost t0 = text@;
    let ghost p0 = params_view(params@);
    match &f.first_item_id {
        Some(v) => {
            text.append(" AND id >= ?");
            let ghost pm = params_view(params@);
            params.push(SqlParam::Int(*v));
            proof {
                assert(params_view(params@) =~= pm.push(SqlParamSpec::Int(*v)));
            }
        },
        None => (),
    }
    match &f.last_item_id {
        Some(v) => {
            text.append(" AND id <= ?");
            let ghost pm = params_view(params@);
            params.push(SqlParam::Int(*v));
            proof {
                assert(params_view(params@) =~= pm.push(SqlParamSpec::Int(*v)));
            }
        },
        None => (),
    }
    text.append(" ORDER BY id");
    let asc = match f.asc {
        Some(true) => true,
        _ => false,
    };
    if !asc {
        text.append(" DESC");
    }
    match &f.batch_size {
        Some(v) => {
            text.append(" LIMIT ?");
            let ghost pm = params_view(params@);
            params.push(SqlParam::Uint(*v));
            proof {
                assert(params_view(params@) =~= pm.push(SqlParamSpec::Uint(*v)));
            }
        },
        None => (),
    }
    proof {
        assert(text@ =~= t0 + sql_text_paging(*f));
        assert(params_view(params@) =~= p0 + sql_params_paging(*f));
    }
}

/// Compile one search into SQL text and bound parameters. The text equals
/// a fixed-fragment skeleton determined only by which filter fields are
/// present and how many list elements and terms there are; every
/// user-supplied value lands in `params`, in placeholder order.
pub fn build_search_sql(f: &ItemFilter) -> (r: SqlQuery)
    ensures
        r.text@ == sql_text_spec(*f),
        params_view(r.params@) == sql_params_spec(*f),
{
    let mut text = String::new();
    let mut params: Vec<SqlParam> = Vec::new();
    proof {
        assert(params_view(params@) =~= Seq::<SqlParamSpec>::empty());
    }
    build_filters(f, &mut text, &mut params);
    build_paging(f, &mut text, &mut params);
    proof {
        assert(text@ =~= sql_text_spec(*f));
        assert(params_view(params@) =~= sql_params_spec(*f));
    }
    SqlQuery { text, params }
}

} // verus!
