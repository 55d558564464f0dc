//! The service: what one request sees. It wires the classifier's
//! startup-built rule table to the store: searches load the page, the
//! count, the known systems and optionally the first matching item in
//! full; submissions are classified and inserted as one new item.

use vstd::prelude::*;
use vstd::utf8::encode_utf8;
use crate::classify::{classification_spec, Classifier};
use crate::filter::{has_invalid_regex, FilterError};
use crate::model::{Item, ItemFilter, ItemSearchResult, NewItem, NewItemHeader};
use crate::store::{returned_like, search_matches, search_page, summary_like, Repository};
use crate::text::bytes_le;
use crate::xml::{rules_view, XmlRule, XmlRuleSpec};

verus! {

/// The classification rule table this build ships: the keys the streaming
/// scan can assign, in priority order.
pub open spec fn builtin_rules() -> Seq<XmlRuleSpec> {
    seq![
        XmlRuleSpec {
            key: "folder_cl"@,
            path: seq![encode_utf8("Folder"@)],
            attrs: seq![(encode_utf8("type"@), encode_utf8("CL"@))],
        },
        XmlRuleSpec {
            key: "application_created"@,
            path: seq![encode_utf8("createdApplication"@)],
            attrs: Seq::empty(),
        },
        XmlRuleSpec {
            key: "status_updated"@,
            path: seq![encode_utf8("Create__CompIntfc__Z_USAS_UPDT_STATUS"@)],
            attrs: Seq::empty(),
        },
        XmlRuleSpec {
            key: "status_updated"@,
            path: seq![encode_utf8("updateStatusRequest"@)],
            attrs: Seq::empty(),
        },
        XmlRuleSpec {
            key: "vacancy_updated"@,
            path: seq![encode_utf8("updatedVacancy"@)],
            attrs: Seq::empty(),
        },
    ]
}

fn plain_rule(key: &str, path: &str) -> (r: XmlRule)
    ensures
        r@ == (XmlRuleSpec {
            key: key@,
            path: seq![encode_utf8(path@)],
            attrs: Seq::<(Seq<u8>, Seq<u8>)>::empty(),
        }),
{
    let mut p: Vec<Vec<u8>> = Vec::new();
    p.push(path.as_bytes_vec());
    let r = XmlRule { key: key.to_owned(), path: p, attrs: Vec::new() };
    proof {
        assert(r.path.deep_view() =~~= seq![encode_utf8(path@)]);
        assert(r.attrs@.map_values(|q: (Vec<u8>, Vec<u8>)| (q.0@, q.1@)) =~= Seq::<(
            Seq<u8>,
            Seq<u8>,
        )>::empty());
    }
    r
}

fn build_rules() -> (r: Vec<XmlRule>)
    ensures
        rules_view(r@) == builtin_rules(),
{
    let mut r: Vec<XmlRule> = Vec::new();
    let folder = {
        let mut p: Vec<Vec<u8>> = Vec::new();
        p.push("Folder".as_bytes_vec());
        let mut a: Vec<(Vec<u8>, Vec<u8>)> = Vec::new();
        a.push(("type".as_bytes_vec(), "CL".as_bytes_vec()));
        let rule = XmlRule { key: "folder_cl".to_owned(), path: p, attrs: a };
        proof {
            assert(rule.path.deep_view() =~~= seq![encode_utf8("Folder"@)]);
            assert(rule.attrs@.map_values(|q: (Vec<u8>, Vec<u8>)| (q.0@, q.1@)) =~= seq![
                (encode_utf8("type"@), encode_utf8("CL"@)),
            ]);
        }
        rule
    };
    r.push(folder);
    r.push(plain_rule("application_created", "createdApplication"));
    r.push(plain_rule("status_updated", "Create__CompIntfc__Z_USAS_UPDT_STATUS"));
    r.push(plain_rule("status_updated", "updateStatusRequest"));
    r.push(plain_rule("vacancy_updated", "updatedVacancy"));
    proof {
        assert(rules_view(r@) =~= builtin_rules());
    }
    r
}

/// Build a classifier carrying the built-in rule table.
pub fn new_classifier() -> (r: Classifier)
    ensures
        r.rules() == builtin_rules(),
{
    Classifier { xml_rules: build_rules() }
}

/// The service: the store together with the startup-built classifier.
pub struct Service {
    repository: Repository,
    classifier: Classifier,
}

/// Build a service around a store, constructing the immutable
/// classification rule table once.
pub fn new_service(repository: Repository) -> (r: Service)
    requires
        repository.inv(),
    ensures
        r.wf(),
        r.items() == repository.items(),
        r.now() == repository.now(),
{
    Service { repository, classifier: Classifier { xml_rules: build_rules() } }
}

impl Service {
    /// The stored items, in insertion order.
    pub closed spec fn items(&self) -> Seq<Item> {
        self.repository.items()
    }

    /// The submit timestamp recorded for the next insertions.
    pub closed spec fn now(&self) -> Seq<char> {
        self.repository.now()
    }

    /// The store's invariant holds and the classifier carries the
    /// built-in rule table.
    pub closed spec fn wf(&self) -> bool {
        self.repository.inv() && self.classifier.rules() == builtin_rules()
    }

    /// Set the submit timestamp recorded for following submissions.
    pub fn set_now(&mut self, now: &str)
        requires
            old(self).wf(),
        ensures
            final(self).wf(),
            final(self).items() == old(self).items(),
            final(self).now() == now@,
    {
        self.repository.set_now(now);
    }

    /// Fetch one item in full, or nothing for an unknown id.
    pub fn get_item(&self, id: i64) -> (r: Option<Item>)
        requires
            self.wf(),
        ensures
            match r {
                Some(it) => 1 <= id <= self.items().len() && returned_like(
                    self.items()[id - 1],
                    it,
                ),
                None => !(1 <= id <= self.items().len()),
            },
    {
        self.repository.get_item(id)
    }

    /// Search: the page, the pre-pagination total, the known systems, and
    /// the first matching item in full when it was asked for and the page
    /// is not empty.
    pub fn get_items(&self, f: &ItemFilter) -> (r: Result<ItemSearchResult, FilterError>)
        requires
            self.wf(),
        ensures
            match r {
                Ok(res) => {
                    &&& !(f.query matches Some(q) && has_invalid_regex(q@))
                    &&& res.total_items == search_matches(self.items(), *f).len()
                    &&& res.items@.len() == search_page(self.items(), *f).len()
                    &&& forall|i: int|
                        0 <= i < res.items@.len() ==> summary_like(
                            search_page(self.items(), *f)[i].summary,
                            #[trigger] res.items@[i],
                        )
                    &&& forall|x: int, y: int|
                        0 <= x < y < res.systems@.len() ==> bytes_le(
                            encode_utf8(#[trigger] res.systems@[x]@),
                            encode_utf8(#[trigger] res.systems@[y]@),
                        ) && res.systems@[x]@ != res.systems@[y]@
                    &&& forall|s: Seq<char>|
                        res.systems.deep_view().contains(s) <==> exists|i: int|
                            0 <= i < self.items().len() && ((#[trigger] self.items().index(
                                i,
                            )).summary.system matches Some(x) && x@ == s)
                    &&& if f.load_first_item == Some(true) && res.items@.len() > 0 {
                        res.first_item matches Some(it) && 1 <= res.items@[0].id
                            <= self.items().len() && returned_like(
                            self.items()[res.items@[0].id - 1],
                            it,
                        )
                    } else {
                        res.first_item is None
                    }
                },
                Err(e) => {
                    &&& e is InvalidRegex
                    &&& f.query matches Some(q) && has_invalid_regex(q@)
                },
            },
    {
        let (items, total_items) = match self.repository.get_items(f) {
            Ok(p) => p,
            Err(e) => {
                return Err(e);
            },
        };
        let load_first = match f.load_first_item {
            Some(true) => true,
            _ => false,
        };
        let first_item = if load_first && items.len() > 0 {
            match self.repository.get_item(items[0].id) {
                Some(it) => Some(it),
                None => {
                    proof {
                        self.repository.lemma_ids_dense();
                        let page = search_page(self.items(), *f);
                        assert(summary_like(page[0].summary, items@[0]));
                        lemma_page_member(self.items(), *f, 0);
                        assert(false);
                    }
                    None
                },
            }
        } else {
            None
        };
        let systems = self.repository.get_systems();
        Ok(ItemSearchResult { items, total_items, systems, first_item })
    }

    /// Classify one submission and store it atomically: the new item
    /// carries exactly what the classifier derived from these headers and
    /// this body, the headers and body as submitted, the current
    /// timestamp, and the next id, which is returned.
    pub fn save_item(&mut self, headers: &[NewItemHeader], body: &[u8]) -> (r: i64)
        requires
            old(self).wf(),
            old(self).items().len() + 1 < i32::MAX,
        ensures
            final(self).wf(),
            final(self).now() == old(self).now(),
            r == old(self).items().len() + 1,
            final(self).items().len() == old(self).items().len() + 1,
            final(self).items().subrange(0, old(self).items().len() as int) == old(self).items(),
            ({
                let it = final(self).items().last();
                let c = classification_spec(builtin_rules(), headers@, body@);
                &&& it.summary.id == r
                &&& it.summary.system.deep_view() == c.system
                &&& it.summary.item_type.deep_view() == c.item_type
                &&& it.summary.event_id == c.event_id
                &&& it.summary.entity_event_id == c.entity_event_id
                &&& it.summary.user_agent.deep_view() == c.user_agent
                &&& it.summary.submit_date@ == old(self).now()
                &&& it.headers@.len() == headers@.len()
                &&& forall|j: int|
                    0 <= j < headers@.len() ==> (#[trigger] it.headers@[j]).name@
                        == headers@.index(j).name@ && it.headers@[j].value@ == headers@.index(
                        j,
                    ).value@
                &&& it.body@ == body@
            }),
    {
        let c = self.classifier.classify(headers, body);
        let mut hs: Vec<NewItemHeader> = Vec::new();
        let n = headers.len();
        let mut i: usize = 0;
        while i < n
            invariant
                n == headers@.len(),
                i <= n,
                hs@.len() == i,
                forall|j: int|
                    0 <= j < i ==> (#[trigger] hs@[j]).name@ == headers@[j].name@ && hs@[j].value@
                        == headers@[j].value@,
            decreases n - i,
        {
            hs.push(
                NewItemHeader {
                    name: headers[i].name.as_str().to_owned(),
                    value: vstd::slice::slice_to_vec(headers[i].value.as_slice()),
                },
            );
            i = i + 1;
        }
        let ni = NewItem {
            system: c.system,
            item_type: c.item_type,
            event_id: c.event_id,
            entity_event_id: c.entity_event_id,
            user_agent: c.user_agent,
            headers: hs,
            body: vstd::slice::slice_to_vec(body),
        };
        self.repository.insert_item(&ni)
    }
}

/// An element of the returned page is an element of the corpus.
proof fn lemma_page_member(items: Seq<Item>, f: ItemFilter, k: int)
    requires
        0 <= k < search_page(items, f).len(),
        forall|i: int| 0 <= i < items.len() ==> (#[trigger] items[i]).summary.id == i + 1,
    ensures
        1 <= search_page(items, f)[k].summary.id <= items.len(),
        items[search_page(items, f)[k].summary.id - 1] == search_page(items, f)[k],
{
    let w = crate::store::search_window(items, f);
    let o = crate::store::search_ordered(items, f);
    let p = search_page(items, f);
    assert(p[k] == o[k]);
    let wi: int = if crate::store::asc_of(f) {
        k
    } else {
        w.len() - 1 - k
    };
    assert(o[k] == w[wi]);
    reveal(Seq::filter);
    lemma_filter_member(
        items,
        |it: Item| crate::filter::item_matches(it, f) && crate::filter::in_id_range(it, f),
        wi,
    );
    let j = choose|j: int| 0 <= j < items.len() && items[j] == w[wi];
    assert(items[j].summary.id == j + 1);
}

/// Every element of a filtered sequence occurs in the original.
proof fn lemma_filter_member<A>(s: Seq<A>, p: spec_fn(A) -> bool, k: int)
    requires
        0 <= k < s.filter(p).len(),
    ensures
        exists|j: int| 0 <= j < s.len() && s[j] == s.filter(p)[k],
    decreases s.len(),
{
    reveal(Seq::filter);
    if s.len() > 0 {
        if k < s.drop_last().filter(p).len() {
            lemma_filter_member(s.drop_last(), p, k);
            let j = choose|j: int|
                0 <= j < s.drop_last().len() && s.drop_last()[j] == s.drop_last().filter(p)[k];
            assert(s[j] == s.filter(p)[k]);
        } else {
            assert(s[s.len() - 1] == s.filter(p)[k]);
        }
    }
}

} // verus!
