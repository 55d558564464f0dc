//! Header ordering: a full item is returned with its headers arranged by
//! name and then by value, both compared byte-wise. The sort here is what
//! `get_item` applies before handing an item out.

use vstd::prelude::*;
use vstd::utf8::encode_utf8;
use crate::model::ItemHeader;
use crate::text::{
    bytes_eq, bytes_le, bytes_le_exec, lemma_bytes_le_antisym, lemma_bytes_le_total,
    lemma_bytes_le_trans,
};

verus! {

/// The name and value of a header, as sequences.
pub open spec fn hview(h: ItemHeader) -> (Seq<u8>, Seq<u8>) {
    (encode_utf8(h.name@), h.value@)
}

/// The headers' names and values, in order.
pub open spec fn hviews(hs: Seq<ItemHeader>) -> Seq<(Seq<u8>, Seq<u8>)> {
    hs.map_values(|h: ItemHeader| hview(h))
}

/// The same, for headers as they are handed in at ingestion.
pub open spec fn nhviews(hs: Seq<crate::model::NewItemHeader>) -> Seq<(Seq<u8>, Seq<u8>)> {
    hs.map_values(|h: crate::model::NewItemHeader| (encode_utf8(h.name@), h.value@))
}

/// Name-then-value order on header views, byte-wise.
pub open spec fn hv_le(a: (Seq<u8>, Seq<u8>), b: (Seq<u8>, Seq<u8>)) -> bool {
    if a.0 == b.0 {
        bytes_le(a.1, b.1)
    } else {
        bytes_le(a.0, b.0)
    }
}

/// The headers stand in name-then-value order.
pub open spec fn hdrs_sorted(hs: Seq<ItemHeader>) -> bool {
    forall|i: int, j: int|
        0 <= i < j < hs.len() ==> hv_le(hview(#[trigger] hs[i]), hview(#[trigger] hs[j]))
}

pub proof fn lemma_hv_le_total(a: (Seq<u8>, Seq<u8>), b: (Seq<u8>, Seq<u8>))
    ensures
        hv_le(a, b) || hv_le(b, a),
{
    lemma_bytes_le_total(a.0, b.0);
    lemma_bytes_le_total(a.1, b.1);
}

pub proof fn lemma_hv_le_trans(a: (Seq<u8>, Seq<u8>), b: (Seq<u8>, Seq<u8>), c: (Seq<u8>, Seq<u8>))
    requires
        hv_le(a, b),
        hv_le(b, c),
    ensures
        hv_le(a, c),
{
    if a.0 == b.0 && b.0 == c.0 {
        lemma_bytes_le_trans(a.1, b.1, c.1);
    } else if a.0 == b.0 {
        assert(bytes_le(a.0, c.0));
    } else if b.0 == c.0 {
        assert(bytes_le(a.0, c.0));
    } else {
        lemma_bytes_le_trans(a.0, b.0, c.0);
        if a.0 == c.0 {
            lemma_bytes_le_antisym(a.0, b.0);
        }
    }
}

fn hdr_le_exec(a: &ItemHeader, b: &ItemHeader) -> (r: bool)
    ensures
        r == hv_le(hview(*a), hview(*b)),
{
    if bytes_eq(a.name.as_str().as_bytes(), b.name.as_str().as_bytes()) {
        bytes_le_exec(a.value.as_slice(), b.value.as_slice())
    } else {
        bytes_le_exec(a.name.as_str().as_bytes(), b.name.as_str().as_bytes())
    }
}

fn clone_header(h: &ItemHeader) -> (r: ItemHeader)
    ensures
        r.name@ == h.name@,
        r.value@ == h.value@,
        hview(r) == hview(*h),
{
    ItemHeader {
        name: h.name.as_str().to_owned(),
        value: vstd::slice::slice_to_vec(h.value.as_slice()),
    }
}

/// Copy the headers into name-then-value order: the result is sorted and
/// holds exactly the same names and values, with multiplicity.
pub fn sort_headers(hs: &Vec<ItemHeader>) -> (r: Vec<ItemHeader>)
    ensures
        hdrs_sorted(r@),
        hviews(r@).to_multiset() == hviews(hs@).to_multiset(),
{
    let n = hs.len();
    let mut r: Vec<ItemHeader> = Vec::new();
    let mut i: usize = 0;
    proof {
        assert(hviews(r@) =~= Seq::<(Seq<u8>, Seq<u8>)>::empty());
        assert(hviews(hs@.take(0)) =~= Seq::<(Seq<u8>, Seq<u8>)>::empty());
    }
    while i < n
        invariant
            n == hs@.len(),
            i <= n,
            hdrs_sorted(r@),
            hviews(r@).to_multiset() == hviews(hs@.take(i as int)).to_multiset(),
        decreases n - i,
    {
        let h = clone_header(&hs[i]);
        let m = r.len();
        let mut pos: usize = 0;
        while pos < m && !hdr_le_exec(&h, &r[pos])
            invariant
                m == r@.len(),
                pos <= m,
                forall|j: int| 0 <= j < pos ==> !hv_le(hview(h), hview(#[trigger] r@[j])),
            decreases m - pos,
        {
            pos = pos + 1;
        }
        let ghost r0 = r@;
        r.insert(pos, h);
        proof {
            // the new sequence is still sorted
            assert forall|x: int, y: int| 0 <= x < y < r@.len() implies hv_le(
                hview(#[trigger] r@[x]),
                hview(#[trigger] r@[y]),
            ) by {
                if x < pos {
                    assert(r@[x] == r0[x]);
                }
                if x > pos {
                    assert(r@[x] == r0[x - 1]);
                }
                if y > pos {
                    assert(r@[y] == r0[y - 1]);
                }
                if y == pos {
                    // x < pos: the scan passed x, so the new header is not
                    // below it; totality turns that around
                    lemma_hv_le_total(hview(h), hview(r0[x]));
                }
                if x == pos && y > pos {
                    assert(hv_le(hview(h), hview(r0[pos as int])));
                    if y - 1 > pos {
                        lemma_hv_le_trans(hview(h), hview(r0[pos as int]), hview(r0[y - 1]));
                    }
                }
            }
            // the views gained exactly one element
            broadcast use vstd::seq_lib::group_seq_properties;

            assert(r@ =~= r0.take(pos as int) + seq![h] + r0.skip(pos as int));
            lemma_hviews_add(r0.take(pos as int) + seq![h], r0.skip(pos as int));
            lemma_hviews_add(r0.take(pos as int), seq![h]);
            vstd::seq_lib::lemma_multiset_commutative(
                hviews(r0.take(pos as int) + seq![h]),
                hviews(r0.skip(pos as int)),
            );
            vstd::seq_lib::lemma_multiset_commutative(
                hviews(r0.take(pos as int)),
                hviews(seq![h]),
            );
            assert(r0 =~= r0.take(pos as int) + r0.skip(pos as int));
            lemma_hviews_add(r0.take(pos as int), r0.skip(pos as int));
            vstd::seq_lib::lemma_multiset_commutative(
                hviews(r0.take(pos as int)),
                hviews(r0.skip(pos as int)),
            );
            assert(hviews(seq![h]) =~= Seq::<(Seq<u8>, Seq<u8>)>::empty().push(hview(h)));
            Seq::<(Seq<u8>, Seq<u8>)>::empty().to_multiset_ensures();
            assert(hviews(r@).to_multiset() =~= hviews(r0).to_multiset().insert(hview(h)));
            // and the processed prefix gained the same element
            assert(hviews(hs@.take(i + 1)) =~= hviews(hs@.take(i as int)).push(
                hview(hs@.index(i as int)),
            ));
            hviews(hs@.take(i as int)).to_multiset_ensures();
        }
        i = i + 1;
    }
    proof {
        assert(hs@.take(n as int) =~= hs@);
    }
    r
}

proof fn lemma_hviews_add(a: Seq<ItemHeader>, b: Seq<ItemHeader>)
    ensures
        hviews(a + b) =~= hviews(a) + hviews(b),
{
}

} // verus!
