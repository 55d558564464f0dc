//! The data model: stored items with their headers and bodies, the summary
//! rows that search returns, and the flat filter a search request carries.

use vstd::prelude::*;
use crate::text::{starts_with, str_eq, str_starts_with};

verus! {

/// One header carried by an item: a name and a raw byte value.
pub struct ItemHeader {
    pub name: String,
    pub value: Vec<u8>,
}

/// A header handed in at ingestion time, before the item exists.
pub struct NewItemHeader {
    pub name: String,
    pub value: Vec<u8>,
}

/// The metadata row of a stored item.
pub struct ItemSummary {
    pub id: i64,
    pub system: Option<String>,
    pub item_type: Option<String>,
    pub event_id: Option<i64>,
    pub entity_event_id: Option<i64>,
    pub user_agent: Option<String>,
    pub submit_date: String,
}

/// A full stored item: metadata, headers and body.
pub struct Item {
    pub summary: ItemSummary,
    pub headers: Vec<ItemHeader>,
    pub body: Vec<u8>,
}

/// A new item as handed to the store: classifier output plus the raw
/// headers and body.
pub struct NewItem {
    pub system: Option<String>,
    pub item_type: Option<String>,
    pub event_id: Option<i64>,
    pub entity_event_id: Option<i64>,
    pub user_agent: Option<String>,
    pub headers: Vec<NewItemHeader>,
    pub body: Vec<u8>,
}

/// The flat search request: free-text query, allow-lists, date and id
/// ranges, sort direction and page size.
pub struct ItemFilter {
    pub query: Option<String>,
    pub system: Option<String>,
    pub item_type: Option<String>,
    pub event_type: Option<String>,
    pub from: Option<String>,
    pub to: Option<String>,
    pub asc: Option<bool>,
    pub first_item_id: Option<i64>,
    pub last_item_id: Option<i64>,
    pub batch_size: Option<u32>,
    pub load_first_item: Option<bool>,
}

/// What a search returns: one page, the pre-pagination total, the known
/// systems, and optionally the first matching item in full.
pub struct ItemSearchResult {
    pub items: Vec<ItemSummary>,
    pub total_items: i32,
    pub systems: Vec<String>,
    pub first_item: Option<Item>,
}

/// The first header with the given name, in stored order.
pub open spec fn find_header(hs: Seq<ItemHeader>, name: Seq<char>) -> Option<ItemHeader>
    decreases hs.len(),
{
    if hs.len() == 0 {
        None
    } else if hs[0].name@ == name {
        Some(hs[0])
    } else {
        find_header(hs.skip(1), name)
    }
}

pub proof fn lemma_find_header_at(hs: Seq<ItemHeader>, name: Seq<char>, i: int)
    requires
        0 <= i < hs.len(),
        hs[i].name@ == name,
        forall|j: int| 0 <= j < i ==> hs[j].name@ != name,
    ensures
        find_header(hs, name) == Some(hs[i]),
    decreases i,
{
    if i > 0 {
        assert(hs.skip(1)[i - 1] == hs[i]);
        assert(forall|j: int| 0 <= j < i - 1 ==> hs.skip(1)[j] == hs[j + 1]);
        lemma_find_header_at(hs.skip(1), name, i - 1);
    }
}

pub proof fn lemma_find_header_none(hs: Seq<ItemHeader>, name: Seq<char>)
    requires
        forall|j: int| 0 <= j < hs.len() ==> hs[j].name@ != name,
    ensures
        find_header(hs, name) is None,
    decreases hs.len(),
{
    if hs.len() > 0 {
        assert(forall|j: int| 0 <= j < hs.len() - 1 ==> hs.skip(1)[j] == hs[j + 1]);
        lemma_find_header_none(hs.skip(1), name);
    }
}

/// The prefix that marks a stored header for re-emission on raw reads.
pub open spec fn x_response_prefix() -> Seq<char> {
    "x-response-header-"@
}

/// The headers whose names carry the response prefix, re-emitted with the
/// prefix stripped, in stored order.
pub open spec fn x_response_spec(hs: Seq<ItemHeader>) -> Seq<(Seq<char>, Seq<u8>)>
    decreases hs.len(),
{
    if hs.len() == 0 {
        Seq::empty()
    } else {
        let rest = x_response_spec(hs.drop_last());
        let h = hs.last();
        if starts_with(h.name@, x_response_prefix()) {
            rest.push((h.name@.skip(x_response_prefix().len() as int), h.value@))
        } else {
            rest
        }
    }
}

impl ItemHeader {
    /// Build a header from borrowed name and value.
    pub fn new(name: &str, value: &[u8]) -> (r: ItemHeader)
        ensures
            r.name@ == name@,
            r.value@ == value@,
    {
        ItemHeader { name: name.to_owned(), value: vstd::slice::slice_to_vec(value) }
    }

    /// Whether this header names the submitting system.
    pub fn is_mgs_system_header(&self) -> (r: bool)
        ensures
            r == (self.name@ == "mgs-system-id"@ || self.name@ == "mgssystem"@),
    {
        str_eq(self.name.as_str(), "mgs-system-id") || str_eq(self.name.as_str(), "mgssystem")
    }
}

impl Item {
    /// The value of the first `content-type` header, if any.
    pub fn content_type(&self) -> (r: Option<&Vec<u8>>)
        ensures
            match r {
                Some(v) => {
                    &&& find_header(self.headers@, "content-type"@) matches Some(h)
                    &&& h.value@ == v@
                },
                None => find_header(self.headers@, "content-type"@) is None,
            },
    {
        let n = self.headers.len();
        let mut i: usize = 0;
        while i < n
            invariant
                n == self.headers@.len(),
                i <= n,
                forall|j: int| 0 <= j < i ==> self.headers@[j].name@ != "content-type"@,
            decreases n - i,
        {
            if str_eq(self.headers[i].name.as_str(), "content-type") {
                proof {
                    lemma_find_header_at(self.headers@, "content-type"@, i as int);
                }
                return Some(&self.headers[i].value);
            }
            i = i + 1;
        }
        proof {
            lemma_find_header_none(self.headers@, "content-type"@);
        }
        None
    }

    /// The headers whose names carry the response prefix, with the prefix
    /// stripped from each name.
    pub fn x_response_headers(&self) -> (r: Vec<ItemHeader>)
        ensures
            r@.len() == x_response_spec(self.headers@).len(),
            forall|i: int|
                0 <= i < r@.len() ==> #[trigger] r@[i].name@ == x_response_spec(self.headers@)[i].0
                    && r@[i].value@ == x_response_spec(self.headers@)[i].1,
    {
        let prefix = "x-response-header-";
        let plen = prefix.unicode_len();
        let n = self.headers.len();
        let mut r: Vec<ItemHeader> = Vec::new();
        let mut i: usize = 0;
        while i < n
            invariant
                n == self.headers@.len(),
                i <= n,
                prefix@ == x_response_prefix(),
                plen == x_response_prefix().len(),
                r@.len() == x_response_spec(self.headers@.take(i as int)).len(),
                forall|k: int|
                    0 <= k < r@.len() ==> #[trigger] r@[k].name@ == x_response_spec(
                        self.headers@.take(i as int),
                    )[k].0 && r@[k].value@ == x_response_spec(self.headers@.take(i as int))[k].1,
            decreases n - i,
        {
            let h = &self.headers[i];
            proof {
                assert(self.headers@.take(i + 1).drop_last() =~= self.headers@.take(i as int));
                assert(self.headers@.take(i + 1).last() == self.headers@[i as int]);
            }
            if str_starts_with(h.name.as_str(), prefix) {
                let nlen = h.name.as_str().unicode_len();
                let stripped = h.name.as_str().substring_char(plen, nlen);
                proof {
                    assert(stripped@ =~= h.name@.skip(x_response_prefix().len() as int));
                }
                r.push(
                    ItemHeader {
                        name: stripped.to_owned(),
                        value: vstd::slice::slice_to_vec(h.value.as_slice()),
                    },
                );
            }
            i = i + 1;
        }
        proof {
            assert(self.headers@.take(n as int) =~= self.headers@);
        }
        r
    }
}

} // verus!
