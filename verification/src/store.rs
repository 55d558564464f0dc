//! The in-memory item store: insertion with monotonically assigned ids,
//! retrieval by id with headers arranged name-then-value, count-accurate
//! paginated search, and the list of known systems.

use vstd::prelude::*;
use vstd::utf8::encode_utf8;
use crate::filter::{
    compile_filter, cf_regexes_valid, cf_wf, has_invalid_regex, in_id_range, in_id_range_exec,
    item_matches, item_matches_exec, FilterError,
};
use crate::headers::{hdrs_sorted, hviews, sort_headers};
use crate::model::{Item, ItemFilter, ItemHeader, ItemSummary, NewItem};
use crate::regexes::RegexCache;
use crate::text::{bytes_le, str_eq};

verus! {

/// The items an unconstrained search matches: those satisfying every
/// non-pagination constraint, in stored (ascending id) order.
pub open spec fn search_matches(items: Seq<Item>, f: ItemFilter) -> Seq<Item> {
    items.filter(|it: Item| item_matches(it, f))
}

/// The matching items inside the pagination id window.
pub open spec fn search_window(items: Seq<Item>, f: ItemFilter) -> Seq<Item> {
    items.filter(|it: Item| item_matches(it, f) && in_id_range(it, f))
}

/// Ascending order was asked for explicitly; the default is descending.
pub open spec fn asc_of(f: ItemFilter) -> bool {
    f.asc == Some(true)
}

/// The windowed items in the requested order.
pub open spec fn search_ordered(items: Seq<Item>, f: ItemFilter) -> Seq<Item> {
    if asc_of(f) {
        search_window(items, f)
    } else {
        search_window(items, f).reverse()
    }
}

/// The returned page: the ordered window, cut to the batch size if one was
/// given. The batch size never affects `search_matches`, whose length is
/// the reported total.
pub open spec fn search_page(items: Seq<Item>, f: ItemFilter) -> Seq<Item> {
    match f.batch_size {
        Some(b) => {
            let o = search_ordered(items, f);
            if b <= o.len() {
                o.take(b as int)
            } else {
                o
            }
        },
        None => search_ordered(items, f),
    }
}

/// The returned summary carries the same metadata as the stored item.
pub open spec fn summary_like(a: ItemSummary, b: ItemSummary) -> bool {
    &&& b.id == a.id
    &&& b.system.deep_view() == a.system.deep_view()
    &&& b.item_type.deep_view() == a.item_type.deep_view()
    &&& b.event_id == a.event_id
    &&& b.entity_event_id == a.entity_event_id
    &&& b.user_agent.deep_view() == a.user_agent.deep_view()
    &&& b.submit_date@ == a.submit_date@
}

/// The returned item is the stored one with its headers arranged
/// name-then-value: same metadata, same body, same headers as a multiset.
pub open spec fn returned_like(orig: Item, ret: Item) -> bool {
    &&& summary_like(orig.summary, ret.summary)
    &&& ret.body@ == orig.body@
    &&& hdrs_sorted(ret.headers@)
    &&& hviews(ret.headers@).to_multiset() == hviews(orig.headers@).to_multiset()
}

/// What insertion adds: a fresh item at the end, with the next id, the
/// given submit date, and exactly the handed-in metadata, headers and body.
pub open spec fn inserted_like(ni: NewItem, date: Seq<char>, id: i64, it: Item) -> bool {
    &&& it.summary.id == id
    &&& it.summary.system.deep_view() == ni.system.deep_view()
    &&& it.summary.item_type.deep_view() == ni.item_type.deep_view()
    &&& it.summary.event_id == ni.event_id
    &&& it.summary.entity_event_id == ni.entity_event_id
    &&& it.summary.user_agent.deep_view() == ni.user_agent.deep_view()
    &&& it.summary.submit_date@ == date
    &&& it.headers@.len() == ni.headers@.len()
    &&& forall|j: int|
        0 <= j < ni.headers@.len() ==> (#[trigger] it.headers@[j]).name@ == ni.headers@[j].name@
            && it.headers@[j].value@ == ni.headers@[j].value@
    &&& it.body@ == ni.body@
}

/// The persisted corpus, held in memory: items in insertion order, ids
/// assigned 1, 2, 3, ... and never reused, and the submit timestamp that
/// the owner of the store has set for the next insertions.
pub struct Repository {
    items: Vec<Item>,
    now: String,
}

fn clone_opt_string(s: &Option<String>) -> (r: Option<String>)
    ensures
        r.deep_view() == s.deep_view(),
{
    match s {
        Some(x) => Some(x.as_str().to_owned()),
        None => None,
    }
}

fn clone_summary(s: &ItemSummary) -> (r: ItemSummary)
    ensures
        summary_like(*s, r),
{
    ItemSummary {
        id: s.id,
        system: clone_opt_string(&s.system),
        item_type: clone_opt_string(&s.item_type),
        event_id: s.event_id,
        entity_event_id: s.entity_event_id,
        user_agent: clone_opt_string(&s.user_agent),
        submit_date: s.submit_date.as_str().to_owned(),
    }
}

impl Repository {
    /// The stored items, in insertion order.
    pub closed spec fn items(&self) -> Seq<Item> {
        self.items@
    }

    /// The submit timestamp given to the next inserted item.
    pub closed spec fn now(&self) -> Seq<char> {
        self.now@
    }

    /// Ids are the positions shifted by one: assigned on insert, dense,
    /// never reused; the count stays within the reported total's range.
    pub closed spec fn inv(&self) -> bool {
        &&& forall|i: int|
            0 <= i < self.items@.len() ==> (#[trigger] self.items@[i]).summary.id == i + 1
        &&& self.items@.len() < i32::MAX
    }

    /// Ids are dense: the item at position `i` carries id `i + 1`.
    pub proof fn lemma_ids_dense(&self)
        requires
            self.inv(),
        ensures
            forall|i: int|
                0 <= i < self.items().len() ==> (#[trigger] self.items()[i]).summary.id == i + 1,
            self.items().len() < i32::MAX,
    {
    }

    /// An empty store; the submit timestamp starts empty.
    pub fn new() -> (r: Repository)
        ensures
            r.inv(),
            r.items() == Seq::<Item>::empty(),
            r.now() == Seq::<char>::empty(),
    {
        let r = Repository { items: Vec::new(), now: String::new() };
        proof {
            assert(r.items@ =~= Seq::<Item>::empty());
        }
        r
    }

    /// Set the submit timestamp that following insertions record.
    pub fn set_now(&mut self, now: &str)
        requires
            old(self).inv(),
        ensures
            final(self).inv(),
            final(self).items() == old(self).items(),
            final(self).now() == now@,
    {
        self.now = now.to_owned();
    }

    /// Insert one item atomically: it becomes visible as a whole, with the
    /// next id, the current timestamp, and exactly the given metadata,
    /// headers and body. The id is returned.
    pub fn insert_item(&mut self, item: &NewItem) -> (r: i64)
        requires
            old(self).inv(),
            old(self).items().len() + 1 < i32::MAX,
        ensures
            final(self).inv(),
            final(self).now() == old(self).now(),
            r == old(self).items().len() + 1,
            final(self).items().len() == old(self).items().len() + 1,
            final(self).items().subrange(0, old(self).items().len() as int) == old(self).items(),
            inserted_like(*item, old(self).now(), r, final(self).items().last()),
    {
        let id = self.items.len() as i64 + 1;
        let mut headers: Vec<ItemHeader> = Vec::new();
        let n = item.headers.len();
        let mut j: usize = 0;
        while j < n
            invariant
                n == item.headers@.len(),
                j <= n,
                headers@.len() == j,
                forall|k: int|
                    0 <= k < j ==> (#[trigger] headers@[k]).name@ == item.headers@[k].name@
                        && headers@[k].value@ == item.headers@[k].value@,
            decreases n - j,
        {
            headers.push(
                ItemHeader {
                    name: item.headers[j].name.as_str().to_owned(),
                    value: vstd::slice::slice_to_vec(item.headers[j].value.as_slice()),
                },
            );
            j = j + 1;
        }
        let it = Item {
            summary: ItemSummary {
                id,
                system: clone_opt_string(&item.system),
                item_type: clone_opt_string(&item.item_type),
                event_id: item.event_id,
                entity_event_id: item.entity_event_id,
                user_agent: clone_opt_string(&item.user_agent),
                submit_date: self.now.as_str().to_owned(),
            },
            headers,
            body: vstd::slice::slice_to_vec(item.body.as_slice()),
        };
        self.items.push(it);
        proof {
            assert(final(self).items().subrange(0, old(self).items().len() as int) =~= old(
                self,
            ).items());
        }
        id
    }

    /// Rewrite the derived metadata of one stored item, as an out-of-band
    /// reclassification pass does: only the system, type, correlation ids
    /// and user agent change; the id, submit timestamp, headers and body
    /// are immutable, and every other item is untouched. Returns whether
    /// the id named a stored item.
    pub fn update_item(&mut self, summary: &ItemSummary) -> (r: bool)
        requires
            old(self).inv(),
        ensures
            final(self).inv(),
            final(self).now() == old(self).now(),
            final(self).items().len() == old(self).items().len(),
            r == (1 <= summary.id <= old(self).items().len()),
            forall|i: int|
                0 <= i < old(self).items().len() && i != summary.id - 1
                    ==> final(self).items()[i] == #[trigger] old(self).items()[i],
            r ==> ({
                let pre = old(self).items()[summary.id - 1];
                let post = final(self).items()[summary.id - 1];
                &&& post.summary.id == pre.summary.id
                &&& post.summary.submit_date@ == pre.summary.submit_date@
                &&& post.summary.system.deep_view() == summary.system.deep_view()
                &&& post.summary.item_type.deep_view() == summary.item_type.deep_view()
                &&& post.summary.event_id == summary.event_id
                &&& post.summary.entity_event_id == summary.entity_event_id
                &&& post.summary.user_agent.deep_view() == summary.user_agent.deep_view()
                &&& post.headers == pre.headers
                &&& post.body == pre.body
            }),
    {
        if summary.id < 1 || summary.id > self.items.len() as i64 {
            return false;
        }
        let idx = (summary.id - 1) as usize;
        let old_item = self.items.remove(idx);
        let updated = Item {
            summary: ItemSummary {
                id: old_item.summary.id,
                system: clone_opt_string(&summary.system),
                item_type: clone_opt_string(&summary.item_type),
                event_id: summary.event_id,
                entity_event_id: summary.entity_event_id,
                user_agent: clone_opt_string(&summary.user_agent),
                submit_date: old_item.summary.submit_date,
            },
            headers: old_item.headers,
            body: old_item.body,
        };
        self.items.insert(idx, updated);
        proof {
            assert(final(self).items() =~= old(self).items().update(
                summary.id - 1,
                final(self).items()[summary.id - 1],
            ));
        }
        true
    }

    /// Fetch one item by id: the full record, with its headers arranged by
    /// name and then value, or nothing for an unknown id.
    pub fn get_item(&self, id: i64) -> (r: Option<Item>)
        requires
            self.inv(),
        ensures
            match r {
                Some(it) => 1 <= id <= self.items().len() && returned_like(
                    self.items()[id - 1],
                    it,
                ),
                None => !(1 <= id <= self.items().len()),
            },
    {
        if id < 1 || id > self.items.len() as i64 {
            return None;
        }
        let idx = (id - 1) as usize;
        let orig = &self.items[idx];
        let it = Item {
            summary: clone_summary(&orig.summary),
            headers: sort_headers(&orig.headers),
            body: vstd::slice::slice_to_vec(orig.body.as_slice()),
        };
        Some(it)
    }

    /// Search: one page of summaries and the count of all items matching
    /// the filter's constraints before pagination. Id bounds are inclusive;
    /// the batch size caps the page and never the count; order is by id,
    /// descending unless ascending was asked. A filter carrying an invalid
    /// regex pattern is rejected, and exactly then.
    pub fn get_items(&self, f: &ItemFilter) -> (r: Result<(Vec<ItemSummary>, i32), FilterError>)
        requires
            self.inv(),
        ensures
            match r {
                Ok((page, total)) => {
                    &&& !(f.query matches Some(q) && has_invalid_regex(q@))
                    &&& total == search_matches(self.items(), *f).len()
                    &&& page@.len() == search_page(self.items(), *f).len()
                    &&& forall|i: int|
                        0 <= i < page@.len() ==> summary_like(
                            search_page(self.items(), *f)[i].summary,
                            #[trigger] page@[i],
                        )
                },
                Err(e) => {
                    &&& e is InvalidRegex
                    &&& f.query matches Some(q) && has_invalid_regex(q@)
                },
            },
    {
        let cf = match compile_filter(f) {
            Ok(cf) => cf,
            Err(e) => {
                return Err(e);
            },
        };
        let mut cache = RegexCache::new();
        let n = self.items.len();
        let mut total: usize = 0;
        let mut win: Vec<ItemSummary> = Vec::new();
        let mut i: usize = 0;
        let ghost items = self.items@;
        proof {
            assert(items.take(0) =~= Seq::<Item>::empty());
        }
        while i < n
            invariant
                n == items.len(),
                self.items@ == items,
                self.inv(),
                i <= n,
                cf_wf(cf, *f),
                cf_regexes_valid(cf),
                cache.wf(),
                total == search_matches(items.take(i as int), *f).len(),
                win@.len() == search_window(items.take(i as int), *f).len(),
                forall|k: int|
                    0 <= k < win@.len() ==> summary_like(
                        search_window(items.take(i as int), *f)[k].summary,
                        #[trigger] win@[k],
                    ),
            decreases n - i,
        {
            let ghost pre = items.take(i as int);
            proof {
                reveal(Seq::filter);
                assert(items.take(i + 1).drop_last() =~= pre);
                assert(items.take(i + 1).last() == items[i as int]);
                pre.lemma_filter_len(|it: Item| item_matches(it, *f));
            }
            let m = item_matches_exec(&self.items[i], &cf, f, &mut cache);
            if m {
                total = total + 1;
                if in_id_range_exec(&self.items[i], f) {
                    win.push(clone_summary(&self.items[i].summary));
                }
            }
            proof {
                reveal(Seq::filter);
                assert(search_matches(items.take(i + 1), *f) == (if item_matches(
                    items[i as int],
                    *f,
                ) {
                    search_matches(pre, *f).push(items[i as int])
                } else {
                    search_matches(pre, *f)
                }));
                assert(search_window(items.take(i + 1), *f) == (if item_matches(items[i as int], *f)
                    && in_id_range(items[i as int], *f) {
                    search_window(pre, *f).push(items[i as int])
                } else {
                    search_window(pre, *f)
                }));
            }
            i = i + 1;
        }
        proof {
            assert(items.take(n as int) =~= items);
        }
        let limit = match f.batch_size {
            Some(b) => {
                let b = b as usize;
                if b <= win.len() {
                    b
                } else {
                    win.len()
                }
            },
            None => win.len(),
        };
        let mut page: Vec<ItemSummary> = Vec::new();
        let asc = match f.asc {
            Some(true) => true,
            _ => false,
        };
        let wn = win.len();
        let mut k: usize = 0;
        while k < limit
            invariant
                limit <= wn,
                wn == win@.len(),
                k <= limit,
                self.items@ == items,
                win@.len() == search_window(items, *f).len(),
                forall|l: int|
                    0 <= l < win@.len() ==> summary_like(
                        search_window(items, *f)[l].summary,
                        #[trigger] win@[l],
                    ),
                asc == asc_of(*f),
                page@.len() == k,
                forall|l: int|
                    0 <= l < k ==> summary_like(
                        search_ordered(items, *f)[l].summary,
                        #[trigger] page@[l],
                    ),
            decreases limit - k,
        {
            if asc {
                page.push(clone_summary(&win[k]));
            } else {
                page.push(clone_summary(&win[wn - 1 - k]));
                proof {
                    assert(search_ordered(items, *f)[k as int] == search_window(items, *f)[wn - 1
                        - k]);
                }
            }
            k = k + 1;
        }
        proof {
            reveal(Seq::filter);
            items.lemma_filter_len(|it: Item| item_matches(it, *f));
            assert(search_matches(items, *f).len() <= items.len());
            lemma_page_len(items, *f, limit as int);
        }
        let total32 = total as i32;
        Ok((page, total32))
    }

    /// The distinct system names among the stored items, ascending
    /// byte-wise, each exactly once.
    pub fn get_systems(&self) -> (r: Vec<String>)
        requires
            self.inv(),
        ensures
            forall|x: int, y: int|
                0 <= x < y < r@.len() ==> bytes_le(
                    encode_utf8(#[trigger] r@[x]@),
                    encode_utf8(#[trigger] r@[y]@),
                ) && r@[x]@ != r@[y]@,
            forall|s: Seq<char>|
                r.deep_view().contains(s) <==> exists|i: int|
                    0 <= i < self.items().len() && ((#[trigger] self.items()[i]).summary.system
                        matches Some(x) && x@ == s),
    {
        let n = self.items.len();
        let mut r: Vec<String> = Vec::new();
        let mut i: usize = 0;
        let ghost items = self.items@;
        while i < n
            invariant
                n == items.len(),
                self.items@ == items,
                i <= n,
                forall|x: int, y: int|
                    0 <= x < y < r@.len() ==> bytes_le(
                        encode_utf8(#[trigger] r@[x]@),
                        encode_utf8(#[trigger] r@[y]@),
                    ) && r@[x]@ != r@[y]@,
                forall|s: Seq<char>|
                    r.deep_view().contains(s) <==> exists|j: int|
                        0 <= j < i && ((#[trigger] items[j]).summary.system matches Some(x) && x@
                            == s),
            decreases n - i,
        {
            match &self.items[i].summary.system {
                Some(s) => {
                    insert_sorted_unique(&mut r, s.as_str());
                    proof {
                        assert forall|ss: Seq<char>| r.deep_view().contains(ss) implies exists|
                            j: int,
                        |
                            0 <= j < i + 1 && ((#[trigger] items[j]).summary.system matches Some(x)
                                && x@ == ss) by {
                            if ss == s@ {
                                assert(items[i as int].summary.system matches Some(x) && x@ == ss);
                            }
                        }
                    }
                },
                None => {},
            }
            i = i + 1;
        }
        r
    }
}

proof fn lemma_filter_all<A>(s: Seq<A>, p: spec_fn(A) -> bool)
    requires
        forall|i: int| 0 <= i < s.len() ==> p(#[trigger] s[i]),
    ensures
        s.filter(p) == s,
    decreases s.len(),
{
    reveal(Seq::filter);
    if s.len() > 0 {
        assert(forall|i: int| 0 <= i < s.drop_last().len() ==> s.drop_last()[i] == s[i]);
        lemma_filter_all(s.drop_last(), p);
        assert(s.filter(p) =~= s);
    }
}

proof fn lemma_filter_congruent<A>(s: Seq<A>, p: spec_fn(A) -> bool, q: spec_fn(A) -> bool)
    requires
        forall|i: int| 0 <= i < s.len() ==> p(#[trigger] s[i]) == q(s[i]),
    ensures
        s.filter(p) == s.filter(q),
    decreases s.len(),
{
    reveal(Seq::filter);
    if s.len() > 0 {
        assert(forall|i: int| 0 <= i < s.drop_last().len() ==> s.drop_last()[i] == s[i]);
        lemma_filter_congruent(s.drop_last(), p, q);
    }
}

/// A search with no query, system, type, event-type or date constraint
/// matches every item; with no id bounds and no batch size either, the
/// returned page is the whole corpus, reversed into descending id order
/// unless ascending order was asked for.
pub proof fn lemma_search_unconstrained(items: Seq<Item>, f: ItemFilter)
    requires
        f.query is None,
        f.system is None,
        f.item_type is None,
        f.event_type is None,
        f.from is None,
        f.to is None,
    ensures
        search_matches(items, f) == items,
        f.first_item_id is None && f.last_item_id is None ==> search_window(items, f) == items,
        (f.first_item_id is None && f.last_item_id is None && f.batch_size is None)
            ==> search_page(items, f) == (if asc_of(f) {
            items
        } else {
            items.reverse()
        }),
{
    lemma_filter_all(items, |it: Item| item_matches(it, f));
    if f.first_item_id is None && f.last_item_id is None {
        lemma_filter_all(items, |it: Item| item_matches(it, f) && in_id_range(it, f));
    }
}

/// With dense ids and no constraints at all, the default page walks the
/// whole corpus by id, strictly descending from the highest.
pub proof fn lemma_unconstrained_page_descending(items: Seq<Item>, f: ItemFilter)
    requires
        forall|i: int| 0 <= i < items.len() ==> (#[trigger] items[i]).summary.id == i + 1,
        f.query is None,
        f.system is None,
        f.item_type is None,
        f.event_type is None,
        f.from is None,
        f.to is None,
        f.first_item_id is None,
        f.last_item_id is None,
        f.batch_size is None,
        !asc_of(f),
    ensures
        search_page(items, f).len() == items.len(),
        forall|k: int|
            0 <= k < items.len() ==> (#[trigger] search_page(items, f)[k]).summary.id
                == items.len() - k,
{
    lemma_search_unconstrained(items, f);
}

/// The id bounds are an inclusive window: an item sits in it exactly when
/// its id is at or above the lower bound and at or below the upper one.
pub proof fn lemma_id_bounds_inclusive(it: Item, f: ItemFilter)
    ensures
        in_id_range(it, f) == ((match f.first_item_id {
            Some(lo) => it.summary.id >= lo,
            None => true,
        }) && (match f.last_item_id {
            Some(hi) => it.summary.id <= hi,
            None => true,
        })),
{
}

/// The batch size caps the returned page at its size and never changes
/// which items match: the reported total is the total of the same search
/// without any batch size, and the page is a prefix of its page.
pub proof fn lemma_batch_caps_page_not_total(items: Seq<Item>, f: ItemFilter, b: u32)
    requires
        f.batch_size is None,
    ensures
        ({
            let g = ItemFilter { batch_size: Some(b), ..f };
            &&& search_matches(items, g) == search_matches(items, f)
            &&& search_page(items, g).len() <= b
            &&& search_page(items, g).len() <= search_page(items, f).len()
            &&& forall|k: int|
                0 <= k < search_page(items, g).len() ==> #[trigger] search_page(items, g)[k]
                    == search_page(items, f)[k]
        }),
{
    let g = ItemFilter { batch_size: Some(b), ..f };
    lemma_filter_congruent(
        items,
        |it: Item| item_matches(it, g),
        |it: Item| item_matches(it, f),
    );
    lemma_filter_congruent(
        items,
        |it: Item| item_matches(it, g) && in_id_range(it, g),
        |it: Item| item_matches(it, f) && in_id_range(it, f),
    );
}

/// Inserting an item and then fetching the returned id gives back the
/// submitted body byte-for-byte and exactly the submitted headers, with
/// multiplicity, arranged by name and then value.
pub proof fn lemma_insert_get_round_trip(
    pre: Seq<Item>,
    post: Seq<Item>,
    ni: NewItem,
    date: Seq<char>,
    id: i64,
    got: Option<Item>,
)
    requires
        post.len() == pre.len() + 1,
        id == pre.len() + 1,
        inserted_like(ni, date, id, post.last()),
        match got {
            Some(it) => 1 <= id <= post.len() && returned_like(post[id - 1], it),
            None => !(1 <= id <= post.len()),
        },
    ensures
        got matches Some(it) && it.body@ == ni.body@ && hdrs_sorted(it.headers@) && hviews(
            it.headers@,
        ).to_multiset() == crate::headers::nhviews(ni.headers@).to_multiset()
            && it.summary.submit_date@ == date,
{
    let it = got.unwrap();
    assert(post[id - 1] == post.last());
    assert(hviews(post.last().headers@) =~= crate::headers::nhviews(ni.headers@));
}
fn insert_sorted_unique(r: &mut Vec<String>, s: &str)
    requires
        forall|x: int, y: int|
            0 <= x < y < old(r)@.len() ==> bytes_le(
                encode_utf8(#[trigger] old(r)@[x]@),
                encode_utf8(#[trigger] old(r)@[y]@),
            ) && old(r)@[x]@ != old(r)@[y]@,
    ensures
        forall|x: int, y: int|
            0 <= x < y < final(r)@.len() ==> bytes_le(
                encode_utf8(#[trigger] final(r)@[x]@),
                encode_utf8(#[trigger] final(r)@[y]@),
            ) && final(r)@[x]@ != final(r)@[y]@,
        forall|ss: Seq<char>|
            final(r).deep_view().contains(ss) <==> (old(r).deep_view().contains(ss) || ss == s@),
{
    let n = r.len();
    // membership first: an already known name leaves the list unchanged
    let mut i: usize = 0;
    while i < n
        invariant
            n == r@.len(),
            *r == *old(r),
            i <= n,
            forall|x: int, y: int|
                0 <= x < y < r@.len() ==> bytes_le(
                    encode_utf8(#[trigger] r@[x]@),
                    encode_utf8(#[trigger] r@[y]@),
                ) && r@[x]@ != r@[y]@,
            forall|j: int| 0 <= j < i ==> r@[j]@ != s@,
        decreases n - i,
    {
        if str_eq(r[i].as_str(), s) {
            proof {
                assert(r.deep_view()[i as int] == s@);
                assert(r.deep_view().contains(s@));
            }
            return;
        }
        i = i + 1;
    }
    // find the insertion position: past every name that sorts below s
    let mut pos: usize = 0;
    while pos < n && bytes_le_unseen(r, pos, s)
        invariant
            n == r@.len(),
            *r == *old(r),
            pos <= n,
            forall|j: int| 0 <= j < n ==> r@[j]@ != s@,
            forall|j: int|
                0 <= j < pos ==> bytes_le(encode_utf8(#[trigger] r@[j]@), encode_utf8(s@)),
        decreases n - pos,
    {
        pos = pos + 1;
    }
    let ghost r0 = r@;
    let ghost p = pos as int;
    r.insert(pos, s.to_owned());
    proof {
        assert forall|x: int, y: int| 0 <= x < y < r@.len() implies bytes_le(
            encode_utf8(#[trigger] r@[x]@),
            encode_utf8(#[trigger] r@[y]@),
        ) && r@[x]@ != r@[y]@ by {
            if x < p {
                assert(r@[x] == r0[x]);
            }
            if x > p {
                assert(r@[x] == r0[x - 1]);
            }
            if y > p {
                assert(r@[y] == r0[y - 1]);
            }
            if x == p && y > p {
                // the scan stopped at a name that does not sort below s
                crate::text::lemma_bytes_le_total(
                    encode_utf8(s@),
                    encode_utf8(r0[p]@),
                );
                if y - 1 > p {
                    crate::text::lemma_bytes_le_trans(
                        encode_utf8(s@),
                        encode_utf8(r0[p]@),
                        encode_utf8(r0[y - 1]@),
                    );
                }
            }
        }
        assert forall|ss: Seq<char>| r.deep_view().contains(ss) implies (old(
            r,
        ).deep_view().contains(ss) || ss == s@) by {
            let w = choose|w: int| 0 <= w < r.deep_view().len() && r.deep_view()[w] == ss;
            if w < p {
                assert(old(r).deep_view()[w] == ss);
            } else if w > p {
                assert(old(r).deep_view()[w - 1] == ss);
            }
        }
        assert forall|ss: Seq<char>| (old(r).deep_view().contains(ss) || ss == s@)
            implies r.deep_view().contains(ss) by {
            if ss == s@ {
                assert(r.deep_view()[p] == ss);
            } else {
                let w = choose|w: int|
                    0 <= w < old(r).deep_view().len() && old(r).deep_view()[w] == ss;
                if w < p {
                    assert(r.deep_view()[w] == ss);
                } else {
                    assert(r.deep_view()[w + 1] == ss);
                }
            }
        }
    }
}

/// The name at `pos` sorts at or below `s`, byte-wise.
fn bytes_le_unseen(r: &Vec<String>, pos: usize, s: &str) -> (b: bool)
    requires
        pos < r@.len(),
    ensures
        b == bytes_le(encode_utf8(r@[pos as int]@), encode_utf8(s@)),
{
    crate::text::bytes_le_exec(r[pos].as_str().as_bytes(), s.as_bytes())
}

proof fn lemma_page_len(items: Seq<Item>, f: ItemFilter, limit: int)
    requires
        limit == (match f.batch_size {
            Some(b) => if b <= search_window(items, f).len() {
                b as int
            } else {
                search_window(items, f).len() as int
            },
            None => search_window(items, f).len() as int,
        }),
    ensures
        search_page(items, f).len() == limit,
{
}

} // verus!
