//! A tolerant streaming scan over XML-shaped bytes, used by the content
//! classifier. The scan walks element starts while tracking the ancestor
//! path as a stack of local element names, evaluates a priority-ordered
//! rule table of path suffixes plus required attributes at each element
//! start, and watches for a designated leaf element whose text names the
//! submitting system. Malformed or truncated input never fails: the scan
//! simply ends with whatever it has found.

use vstd::prelude::*;
use crate::text::{
    find_byte, find_byte_exec, is_ws_byte, is_ws_byte_exec, lemma_find_byte_bounds,
};

verus! {

/// A byte that ends an element name: whitespace, `/` or `>`.
pub open spec fn is_name_delim(b: u8) -> bool {
    is_ws_byte(b) || b == 47 || b == 62
}

/// The end of the element name starting at `i`.
pub open spec fn name_end(b: Seq<u8>, i: int) -> int
    decreases b.len() - i
    when 0 <= i <= b.len()
{
    if i >= b.len() {
        i
    } else if is_name_delim(b[i]) {
        i
    } else {
        name_end(b, i + 1)
    }
}

pub proof fn lemma_name_end_bounds(b: Seq<u8>, i: int)
    requires
        0 <= i <= b.len(),
    ensures
        i <= name_end(b, i) <= b.len(),
    decreases b.len() - i,
{
    if i < b.len() && !is_name_delim(b[i]) {
        lemma_name_end_bounds(b, i + 1);
    }
}

fn name_end_exec(b: &[u8], i: usize) -> (r: usize)
    requires
        i <= b@.len(),
    ensures
        r == name_end(b@, i as int),
        i <= r <= b@.len(),
{
    let n = b.len();
    let mut j: usize = i;
    while j < n && !(is_ws_byte_exec(b[j]) || b[j] == 47 || b[j] == 62)
        invariant
            n == b@.len(),
            i <= j <= n,
            name_end(b@, i as int) == name_end(b@, j as int),
        decreases n - j,
    {
        j = j + 1;
    }
    j
}

/// The position of the `>` that closes the tag open at `i`, skipping over
/// quoted attribute values; `q` is the quote the scan stands inside, or 0.
pub open spec fn tag_end(b: Seq<u8>, i: int, q: u8) -> int
    decreases b.len() - i
    when 0 <= i <= b.len()
{
    if i >= b.len() {
        i
    } else if q != 0 {
        if b[i] == q {
            tag_end(b, i + 1, 0)
        } else {
            tag_end(b, i + 1, q)
        }
    } else if b[i] == 62 {
        i
    } else if b[i] == 34 || b[i] == 39 {
        tag_end(b, i + 1, b[i])
    } else {
        tag_end(b, i + 1, 0)
    }
}

pub proof fn lemma_tag_end_bounds(b: Seq<u8>, i: int, q: u8)
    requires
        0 <= i <= b.len(),
    ensures
        i <= tag_end(b, i, q) <= b.len(),
    decreases b.len() - i,
{
    if i < b.len() {
        if q != 0 {
            if b[i] == q {
                lemma_tag_end_bounds(b, i + 1, 0);
            } else {
                lemma_tag_end_bounds(b, i + 1, q);
            }
        } else if b[i] == 62 {
        } else if b[i] == 34 || b[i] == 39 {
            lemma_tag_end_bounds(b, i + 1, b[i]);
        } else {
            lemma_tag_end_bounds(b, i + 1, 0);
        }
    }
}

fn tag_end_exec(b: &[u8], i: usize) -> (r: usize)
    requires
        i <= b@.len(),
    ensures
        r == tag_end(b@, i as int, 0),
        i <= r <= b@.len(),
{
    let n = b.len();
    let mut j: usize = i;
    let mut q: u8 = 0;
    while j < n && !(q == 0 && b[j] == 62)
        invariant
            n == b@.len(),
            i <= j <= n,
            tag_end(b@, i as int, 0) == tag_end(b@, j as int, q),
        decreases n - j,
    {
        if q != 0 {
            if b[j] == q {
                q = 0;
            }
        } else if b[j] == 34 || b[j] == 39 {
            q = b[j];
        }
        j = j + 1;
    }
    j
}

/// The local part of a (possibly prefixed) element name: what follows the
/// last colon.
pub open spec fn local_name(n: Seq<u8>) -> Seq<u8>
    decreases n.len()
    via local_name_dec
{
    let k = find_byte(n, 58, 0);
    if k < n.len() {
        local_name(n.skip(k + 1))
    } else {
        n
    }
}

#[via_fn]
proof fn local_name_dec(n: Seq<u8>) {
    lemma_find_byte_bounds(n, 58, 0);
}

fn local_name_exec(b: &[u8], start: usize, end: usize) -> (r: Vec<u8>)
    requires
        start <= end <= b@.len(),
    ensures
        r@ == local_name(b@.subrange(start as int, end as int)),
{
    let mut s: usize = start;
    while find_byte_exec(b, 58, s) < end
        invariant
            start <= s <= end <= b@.len(),
            local_name(b@.subrange(start as int, end as int)) == local_name(
                b@.subrange(s as int, end as int),
            ),
        decreases end - s,
    {
        let k = find_byte_exec(b, 58, s);
        proof {
            lemma_find_byte_bounds(b@, 58, s as int);
            let cur = b@.subrange(s as int, end as int);
            lemma_find_byte_sub(b@, s as int, end as int, 58);
            assert(cur.skip(find_byte(cur, 58, 0) + 1) =~= b@.subrange(k + 1, end as int));
        }
        s = k + 1;
    }
    proof {
        let cur = b@.subrange(s as int, end as int);
        lemma_find_byte_sub(b@, s as int, end as int, 58);
        lemma_find_byte_bounds(b@, 58, s as int);
        assert(find_byte(cur, 58, 0) >= cur.len());
    }
    let mut r: Vec<u8> = Vec::new();
    let mut c: usize = s;
    while c < end
        invariant
            s <= c <= end <= b@.len(),
            r@ == b@.subrange(s as int, c as int),
        decreases end - c,
    {
        r.push(b[c]);
        proof {
            assert(r@ =~= b@.subrange(s as int, c + 1));
        }
        c = c + 1;
    }
    proof {
        assert(r@ =~= b@.subrange(s as int, end as int));
    }
    r
}

/// The end of the whitespace run starting at `i`, capped at `end`.
pub open spec fn ws_end_b(b: Seq<u8>, i: int, end: int) -> int
    decreases end - i
    when 0 <= i <= end <= b.len()
{
    if i >= end {
        i
    } else if is_ws_byte(b[i]) {
        ws_end_b(b, i + 1, end)
    } else {
        i
    }
}

proof fn lemma_ws_end_b_bounds(b: Seq<u8>, i: int, end: int)
    requires
        0 <= i <= end <= b.len(),
    ensures
        i <= ws_end_b(b, i, end) <= end,
    decreases end - i,
{
    if i < end && is_ws_byte(b[i]) {
        lemma_ws_end_b_bounds(b, i + 1, end);
    }
}

fn ws_end_b_exec(b: &[u8], i: usize, end: usize) -> (r: usize)
    requires
        i <= end <= b@.len(),
    ensures
        r == ws_end_b(b@, i as int, end as int),
        i <= r <= end,
{
    let mut j: usize = i;
    while j < end && is_ws_byte_exec(b[j])
        invariant
            i <= j <= end <= b@.len(),
            ws_end_b(b@, i as int, end as int) == ws_end_b(b@, j as int, end as int),
        decreases end - j,
    {
        j = j + 1;
    }
    j
}

/// The end of an attribute name starting at `i`: whitespace, `=`, `/` or
/// `>`, capped at `end`.
pub open spec fn attr_name_end(b: Seq<u8>, i: int, end: int) -> int
    decreases end - i
    when 0 <= i <= end <= b.len()
{
    if i >= end {
        i
    } else if is_ws_byte(b[i]) || b[i] == 61 || b[i] == 47 || b[i] == 62 {
        i
    } else {
        attr_name_end(b, i + 1, end)
    }
}

proof fn lemma_attr_name_end_bounds(b: Seq<u8>, i: int, end: int)
    requires
        0 <= i <= end <= b.len(),
    ensures
        i <= attr_name_end(b, i, end) <= end,
    decreases end - i,
{
    if i < end && !(is_ws_byte(b[i]) || b[i] == 61 || b[i] == 47 || b[i] == 62) {
        lemma_attr_name_end_bounds(b, i + 1, end);
    }
}

fn attr_name_end_exec(b: &[u8], i: usize, end: usize) -> (r: usize)
    requires
        i <= end <= b@.len(),
    ensures
        r == attr_name_end(b@, i as int, end as int),
        i <= r <= end,
{
    let mut j: usize = i;
    while j < end && !(is_ws_byte_exec(b[j]) || b[j] == 61 || b[j] == 47 || b[j] == 62)
        invariant
            i <= j <= end <= b@.len(),
            attr_name_end(b@, i as int, end as int) == attr_name_end(b@, j as int, end as int),
        decreases end - j,
    {
        j = j + 1;
    }
    j
}

/// The end of a bare (unquoted) attribute value starting at `i`.
pub open spec fn bare_end(b: Seq<u8>, i: int, end: int) -> int
    decreases end - i
    when 0 <= i <= end <= b.len()
{
    if i >= end {
        i
    } else if is_name_delim(b[i]) {
        i
    } else {
        bare_end(b, i + 1, end)
    }
}

proof fn lemma_bare_end_bounds(b: Seq<u8>, i: int, end: int)
    requires
        0 <= i <= end <= b.len(),
    ensures
        i <= bare_end(b, i, end) <= end,
    decreases end - i,
{
    if i < end && !is_name_delim(b[i]) {
        lemma_bare_end_bounds(b, i + 1, end);
    }
}

fn bare_end_exec(b: &[u8], i: usize, end: usize) -> (r: usize)
    requires
        i <= end <= b@.len(),
    ensures
        r == bare_end(b@, i as int, end as int),
        i <= r <= end,
{
    let mut j: usize = i;
    while j < end && !(is_ws_byte_exec(b[j]) || b[j] == 47 || b[j] == 62)
        invariant
            i <= j <= end <= b@.len(),
            bare_end(b@, i as int, end as int) == bare_end(b@, j as int, end as int),
        decreases end - j,
    {
        j = j + 1;
    }
    j
}

/// The attributes observed between an element's name and its closing `>`:
/// name and value pairs, values unquoted, in written order. Malformed
/// fragments contribute what they unambiguously spell and nothing more.
pub open spec fn attrs_from(b: Seq<u8>, i: int, end: int) -> Seq<(Seq<u8>, Seq<u8>)>
    decreases end - i
    when 0 <= i <= end <= b.len()
    via attrs_from_dec
{
    if i >= end {
        Seq::empty()
    } else if is_ws_byte(b[i]) || b[i] == 47 {
        attrs_from(b, i + 1, end)
    } else {
        let j = attr_name_end(b, i, end);
        if j == i {
            attrs_from(b, i + 1, end)
        } else {
            let name = b.subrange(i, j);
            let k2 = ws_end_b(b, j, end);
            if k2 < end && b[k2] == 61 {
                let k3 = ws_end_b(b, k2 + 1, end);
                if k3 < end && (b[k3] == 34 || b[k3] == 39) {
                    let ve = find_byte(b, b[k3], k3 + 1);
                    if ve < end {
                        seq![(name, b.subrange(k3 + 1, ve))] + attrs_from(b, ve + 1, end)
                    } else {
                        seq![(name, b.subrange(k3 + 1, end))]
                    }
                } else {
                    let ve = bare_end(b, k3, end);
                    if ve == k3 {
                        if k3 < end {
                            seq![(name, Seq::empty())] + attrs_from(b, k3 + 1, end)
                        } else {
                            seq![(name, Seq::empty())]
                        }
                    } else {
                        seq![(name, b.subrange(k3, ve))] + attrs_from(b, ve, end)
                    }
                }
            } else {
                seq![(name, Seq::empty())] + attrs_from(b, k2, end)
            }
        }
    }
}

#[via_fn]
proof fn attrs_from_dec(b: Seq<u8>, i: int, end: int) {
    if 0 <= i && i < end && end <= b.len() {
        lemma_attr_name_end_bounds(b, i, end);
        let j = attr_name_end(b, i, end);
        if j > i {
            lemma_ws_end_b_bounds(b, j, end);
            let k2 = ws_end_b(b, j, end);
            if k2 < end && b[k2] == 61 {
                lemma_ws_end_b_bounds(b, k2 + 1, end);
                let k3 = ws_end_b(b, k2 + 1, end);
                if k3 < end && (b[k3] == 34 || b[k3] == 39) {
                    lemma_find_byte_bounds(b, b[k3], k3 + 1);
                } else {
                    lemma_bare_end_bounds(b, k3, end);
                }
            }
        }
    }
}

/// Collect the attributes of one tag.
fn attrs_from_exec(b: &[u8], start: usize, end: usize) -> (r: Vec<(Vec<u8>, Vec<u8>)>)
    requires
        start <= end <= b@.len(),
    ensures
        r@.len() == attrs_from(b@, start as int, end as int).len(),
        forall|k: int|
            0 <= k < r@.len() ==> (#[trigger] r@[k]).0@ == attrs_from(
                b@,
                start as int,
                end as int,
            )[k].0 && r@[k].1@ == attrs_from(b@, start as int, end as int)[k].1,
{
    let ghost full = attrs_from(b@, start as int, end as int);
    let mut r: Vec<(Vec<u8>, Vec<u8>)> = Vec::new();
    let mut i: usize = start;
    while i < end
        invariant
            start <= i <= end <= b@.len(),
            full == attrs_from(b@, start as int, end as int),
            r@.len() + attrs_from(b@, i as int, end as int).len() == full.len(),
            forall|k: int|
                0 <= k < r@.len() ==> (#[trigger] r@[k]).0@ == full[k].0 && r@[k].1@ == full[k].1,
            forall|k: int|
                0 <= k < attrs_from(b@, i as int, end as int).len() ==> attrs_from(
                    b@,
                    i as int,
                    end as int,
                )[k] == full[r@.len() + k],
        decreases end - i,
    {
        let ghost i0 = i as int;
        let ghost r0 = r@;
        if is_ws_byte_exec(b[i]) || b[i] == 47 {
            i = i + 1;
            proof {
                assert(attrs_from(b@, i0, end as int) == attrs_from(b@, i as int, end as int));
            }
            continue ;
        }
        let j = attr_name_end_exec(b, i, end);
        if j == i {
            i = i + 1;
            proof {
                assert(attrs_from(b@, i0, end as int) == attrs_from(b@, i as int, end as int));
            }
            continue ;
        }
        let name = copy_range(b, i, j);
        let ghost gname = name@;
        let k2 = ws_end_b_exec(b, j, end);
        if k2 < end && b[k2] == 61 {
            let k3 = ws_end_b_exec(b, k2 + 1, end);
            if k3 < end && (b[k3] == 34 || b[k3] == 39) {
                let ve = find_byte_exec(b, b[k3], k3 + 1);
                if ve < end {
                    let value = copy_range(b, k3 + 1, ve);
                    let ghost gval = value@;
                    r.push((name, value));
                    i = ve + 1;
                    proof {
                        assert(attrs_from(b@, i0, end as int) == seq![(gname, gval)]
                            + attrs_from(b@, i as int, end as int));
                        attrs_step(b@, i0, i as int, end as int, (gname, gval), full, r0.len() as int);
                    }
                } else {
                    let value = copy_range(b, k3 + 1, end);
                    let ghost gval = value@;
                    r.push((name, value));
                    i = end;
                    proof {
                        assert(attrs_from(b@, end as int, end as int) =~= Seq::<(
                            Seq<u8>,
                            Seq<u8>,
                        )>::empty());
                        assert(attrs_from(b@, i0, end as int) == seq![(gname, gval)]
                            + attrs_from(b@, i as int, end as int));
                        attrs_step(b@, i0, i as int, end as int, (gname, gval), full, r0.len() as int);
                    }
                }
            } else {
                let ve = bare_end_exec(b, k3, end);
                if ve == k3 {
                    r.push((name, Vec::new()));
                    if k3 < end {
                        i = k3 + 1;
                    } else {
                        i = end;
                        proof {
                            assert(attrs_from(b@, end as int, end as int) =~= Seq::<(
                                Seq<u8>,
                                Seq<u8>,
                            )>::empty());
                        }
                    }
                    proof {
                        assert(attrs_from(b@, i0, end as int) == seq![
                            (gname, Seq::<u8>::empty()),
                        ] + attrs_from(b@, i as int, end as int));
                        attrs_step(
                            b@,
                            i0,
                            i as int,
                            end as int,
                            (gname, Seq::<u8>::empty()),
                            full,
                            r0.len() as int,
                        );
                    }
                } else {
                    let value = copy_range(b, k3, ve);
                    let ghost gval = value@;
                    r.push((name, value));
                    i = ve;
                    proof {
                        assert(attrs_from(b@, i0, end as int) == seq![(gname, gval)]
                            + attrs_from(b@, i as int, end as int));
                        attrs_step(b@, i0, i as int, end as int, (gname, gval), full, r0.len() as int);
                    }
                }
            }
        } else {
            r.push((name, Vec::new()));
            i = k2;
            proof {
                assert(attrs_from(b@, i0, end as int) == seq![(gname, Seq::<u8>::empty())]
                    + attrs_from(b@, i as int, end as int));
                attrs_step(
                    b@,
                    i0,
                    i as int,
                    end as int,
                    (gname, Seq::<u8>::empty()),
                    full,
                    r0.len() as int,
                );
            }
        }
    }
    proof {
        assert(attrs_from(b@, end as int, end as int) =~= Seq::<(Seq<u8>, Seq<u8>)>::empty());
    }
    r
}

proof fn attrs_step(
    b: Seq<u8>,
    i0: int,
    i1: int,
    end: int,
    pair: (Seq<u8>, Seq<u8>),
    full: Seq<(Seq<u8>, Seq<u8>)>,
    at: int,
)
    requires
        attrs_from(b, i0, end) == seq![pair] + attrs_from(b, i1, end),
        0 <= i0 <= end <= b.len(),
        0 <= i1 <= end,
        0 <= at,
        forall|k: int|
            0 <= k < attrs_from(b, i0, end).len() ==> attrs_from(b, i0, end)[k] == full[at + k],
    ensures
        pair == full[at],
        forall|k: int|
            0 <= k < attrs_from(b, i1, end).len() ==> attrs_from(b, i1, end)[k] == full[at + 1
                + k],
{
    let whole = attrs_from(b, i0, end);
    let rest = attrs_from(b, i1, end);
    assert(whole[0] == pair);
    assert(pair == full[at]);
    assert forall|k: int| 0 <= k < rest.len() implies rest[k] == full[at + 1 + k] by {
        assert(whole[k + 1] == rest[k]);
    }
}

/// Copy `b[s..e]` into a fresh vector.
pub fn copy_range(b: &[u8], s: usize, e: usize) -> (r: Vec<u8>)
    requires
        s <= e <= b@.len(),
    ensures
        r@ == b@.subrange(s as int, e as int),
{
    let mut r: Vec<u8> = Vec::new();
    let mut c: usize = s;
    while c < e
        invariant
            s <= c <= e <= b@.len(),
            r@ == b@.subrange(s as int, c as int),
        decreases e - c,
    {
        r.push(b[c]);
        proof {
            assert(r@ =~= b@.subrange(s as int, c + 1));
        }
        c = c + 1;
    }
    proof {
        assert(r@ =~= b@.subrange(s as int, e as int));
    }
    r
}

/// One classification rule: the key assigned when an element start
/// matches, the path that must end the ancestor path, and attributes that
/// must all be present with exactly the given values.
pub struct XmlRule {
    pub key: String,
    pub path: Vec<Vec<u8>>,
    pub attrs: Vec<(Vec<u8>, Vec<u8>)>,
}

/// The spec-level shape of one rule.
pub struct XmlRuleSpec {
    pub key: Seq<char>,
    pub path: Seq<Seq<u8>>,
    pub attrs: Seq<(Seq<u8>, Seq<u8>)>,
}

impl View for XmlRule {
    type V = XmlRuleSpec;

    open spec fn view(&self) -> XmlRuleSpec {
        XmlRuleSpec {
            key: self.key@,
            path: self.path.deep_view(),
            attrs: self.attrs@.map_values(|p: (Vec<u8>, Vec<u8>)| (p.0@, p.1@)),
        }
    }
}

/// The rules, in priority order, as specs.
pub open spec fn rules_view(rs: Seq<XmlRule>) -> Seq<XmlRuleSpec> {
    rs.map_values(|r: XmlRule| r@)
}

/// `p` ends `path`.
pub open spec fn is_path_suffix(p: Seq<Seq<u8>>, path: Seq<Seq<u8>>) -> bool {
    p.len() <= path.len() && p == path.subrange(path.len() - p.len(), path.len() as int)
}

/// Every required attribute occurs, by name and exact value.
pub open spec fn attrs_satisfied(
    req: Seq<(Seq<u8>, Seq<u8>)>,
    attrs: Seq<(Seq<u8>, Seq<u8>)>,
) -> bool {
    forall|j: int| 0 <= j < req.len() ==> attrs.contains(#[trigger] req[j])
}

/// The rule fires at an element start with this ancestor path and these
/// observed attributes.
pub open spec fn rule_matches(
    r: XmlRuleSpec,
    path: Seq<Seq<u8>>,
    attrs: Seq<(Seq<u8>, Seq<u8>)>,
) -> bool {
    is_path_suffix(r.path, path) && attrs_satisfied(r.attrs, attrs)
}

/// The first rule, in priority order from `j` on, that fires.
pub open spec fn first_rule(
    rules: Seq<XmlRuleSpec>,
    path: Seq<Seq<u8>>,
    attrs: Seq<(Seq<u8>, Seq<u8>)>,
    j: int,
) -> Option<int>
    decreases rules.len() - j
    when 0 <= j <= rules.len()
{
    if j >= rules.len() {
        None
    } else if rule_matches(rules[j], path, attrs) {
        Some(j)
    } else {
        first_rule(rules, path, attrs, j + 1)
    }
}

fn seq_pair_eq(a: &(Vec<u8>, Vec<u8>), b: &(Vec<u8>, Vec<u8>)) -> (r: bool)
    ensures
        r == ((a.0@, a.1@) == (b.0@, b.1@)),
{
    let e = crate::text::bytes_eq(a.0.as_slice(), b.0.as_slice()) && crate::text::bytes_eq(
        a.1.as_slice(),
        b.1.as_slice(),
    );
    proof {
        if a.0@ == b.0@ && a.1@ == b.1@ {
            assert((a.0@, a.1@) == (b.0@, b.1@));
        }
    }
    e
}

fn attrs_contain(attrs: &Vec<(Vec<u8>, Vec<u8>)>, want: &(Vec<u8>, Vec<u8>)) -> (r: bool)
    ensures
        r == attrs@.map_values(|p: (Vec<u8>, Vec<u8>)| (p.0@, p.1@)).contains((want.0@, want.1@)),
{
    let ghost av = attrs@.map_values(|p: (Vec<u8>, Vec<u8>)| (p.0@, p.1@));
    let an = attrs.len();
    let mut k: usize = 0;
    while k < an
        invariant
            an == attrs@.len(),
            av == attrs@.map_values(|p: (Vec<u8>, Vec<u8>)| (p.0@, p.1@)),
            k <= an,
            forall|l: int| 0 <= l < k ==> av[l] != (want.0@, want.1@),
        decreases an - k,
    {
        if seq_pair_eq(want, &attrs[k]) {
            proof {
                assert(av[k as int] == (want.0@, want.1@));
            }
            return true;
        }
        k = k + 1;
    }
    proof {
        assert(av.len() == an);
    }
    false
}

fn rule_matches_exec(r: &XmlRule, path: &Vec<Vec<u8>>, attrs: &Vec<(Vec<u8>, Vec<u8>)>) -> (b:
    bool)
    ensures
        b == rule_matches(
            r@,
            path.deep_view(),
            attrs@.map_values(|p: (Vec<u8>, Vec<u8>)| (p.0@, p.1@)),
        ),
{
    let pn = r.path.len();
    let n = path.len();
    if pn > n {
        return false;
    }
    let mut i: usize = 0;
    while i < pn
        invariant
            pn == r.path@.len(),
            n == path@.len(),
            pn <= n,
            i <= pn,
            forall|j: int| 0 <= j < i ==> r.path.deep_view()[j] == path.deep_view()[n - pn + j],
        decreases pn - i,
    {
        let same = crate::text::bytes_eq(r.path[i].as_slice(), path[n - pn + i].as_slice());
        proof {
            assert(r.path.deep_view()[i as int] =~= r.path@[i as int]@);
            assert(path.deep_view()[n - pn + i] =~= path@[n - pn + i]@);
        }
        if !same {
            proof {
                assert(r.path.deep_view()[i as int] != path.deep_view()[n - pn + i]);
                assert(!is_path_suffix(r@.path, path.deep_view()));
            }
            return false;
        }
        i = i + 1;
    }
    proof {
        assert(r@.path =~= path.deep_view().subrange(n - pn, n as int));
        assert(is_path_suffix(r@.path, path.deep_view()));
    }
    let ghost av = attrs@.map_values(|p: (Vec<u8>, Vec<u8>)| (p.0@, p.1@));
    let rn = r.attrs.len();
    let an = attrs.len();
    let mut j: usize = 0;
    while j < rn
        invariant
            rn == r.attrs@.len(),
            an == attrs@.len(),
            av == attrs@.map_values(|p: (Vec<u8>, Vec<u8>)| (p.0@, p.1@)),
            j <= rn,
            is_path_suffix(r@.path, path.deep_view()),
            forall|l: int| 0 <= l < j ==> av.contains(#[trigger] r@.attrs[l]),
        decreases rn - j,
    {
        let found = attrs_contain(attrs, &r.attrs[j]);
        proof {
            assert(r@.attrs[j as int] == (r.attrs@[j as int].0@, r.attrs@[j as int].1@));
        }
        if !found {
            proof {
                assert(!attrs_satisfied(r@.attrs, av));
            }
            return false;
        }
        j = j + 1;
    }
    proof {
        assert(attrs_satisfied(r@.attrs, av));
    }
    true
}

fn first_rule_exec(
    rules: &Vec<XmlRule>,
    path: &Vec<Vec<u8>>,
    attrs: &Vec<(Vec<u8>, Vec<u8>)>,
) -> (r: Option<usize>)
    ensures
        ({
            let rr = match r {
                Some(i) => Some(i as int),
                None => None,
            };
            rr == first_rule(
                rules_view(rules@),
                path.deep_view(),
                attrs@.map_values(|p: (Vec<u8>, Vec<u8>)| (p.0@, p.1@)),
                0,
            )
        }),
        r matches Some(i) ==> i < rules@.len(),
{
    let n = rules.len();
    let ghost rv = rules_view(rules@);
    let ghost pv = path.deep_view();
    let ghost av = attrs@.map_values(|p: (Vec<u8>, Vec<u8>)| (p.0@, p.1@));
    let mut j: usize = 0;
    while j < n
        invariant
            n == rules@.len(),
            rv == rules_view(rules@),
            pv == path.deep_view(),
            av == attrs@.map_values(|p: (Vec<u8>, Vec<u8>)| (p.0@, p.1@)),
            j <= n,
            first_rule(rv, pv, av, 0) == first_rule(rv, pv, av, j as int),
        decreases n - j,
    {
        if rule_matches_exec(&rules[j], path, attrs) {
            proof {
                assert(rv[j as int] == rules@[j as int]@);
            }
            return Some(j);
        }
        proof {
            assert(rv[j as int] == rules@[j as int]@);
        }
        j = j + 1;
    }
    None
}

/// The local name of the leaf element whose text names the submitting
/// system: `mgsSystem`.
pub open spec fn system_leaf() -> Seq<u8> {
    seq![109u8, 103u8, 115u8, 83u8, 121u8, 115u8, 116u8, 101u8, 109u8]
}

fn is_system_leaf(name: &Vec<u8>) -> (r: bool)
    ensures
        r == (name@ == system_leaf()),
{
    let r = name.len() == 9 && name[0] == 109 && name[1] == 103 && name[2] == 115 && name[3] == 83
        && name[4] == 121 && name[5] == 115 && name[6] == 116 && name[7] == 101 && name[8] == 109;
    proof {
        if r {
            assert(name@ =~= system_leaf());
        }
    }
    r
}

/// The streaming scan from position `i`, carrying the ancestor path, the
/// system text found so far and the index of the rule that has fired, if
/// any. It ends when both are resolved or the input is exhausted, and
/// returns the pair.
pub open spec fn xml_scan(
    rules: Seq<XmlRuleSpec>,
    b: Seq<u8>,
    i: int,
    stack: Seq<Seq<u8>>,
    sys: Option<Seq<u8>>,
    typ: Option<int>,
) -> (Option<Seq<u8>>, Option<int>)
    decreases b.len() - i
    when 0 <= i <= b.len()
    via xml_scan_dec
{
    if sys is Some && typ is Some {
        (sys, typ)
    } else {
        let k = find_byte(b, 60, i);
        if k + 1 >= b.len() {
            (sys, typ)
        } else if b[k + 1] == 47 {
            // end tag: pop the matching ancestor, tolerate a stray one
            let ne = name_end(b, k + 2);
            let name = local_name(b.subrange(k + 2, ne));
            let st = if stack.len() > 0 && stack.last() == name {
                stack.drop_last()
            } else {
                stack
            };
            xml_scan(rules, b, ne, st, sys, typ)
        } else if b[k + 1] == 33 || b[k + 1] == 63 {
            // declaration, comment or processing instruction: skip it
            let e = find_byte(b, 62, k + 2);
            xml_scan(rules, b, if e < b.len() { e + 1 } else { b.len() as int }, stack, sys, typ)
        } else {
            let ne = name_end(b, k + 1);
            if ne == k + 1 {
                // a stray `<`: step over it
                xml_scan(rules, b, k + 2, stack, sys, typ)
            } else {
                let name = local_name(b.subrange(k + 1, ne));
                let te = tag_end(b, ne, 0);
                let self_close = te > ne && b[te - 1] == 47;
                let attrs = attrs_from(b, ne, te);
                let path = stack.push(name);
                let t2 = if typ is None {
                    first_rule(rules, path, attrs, 0)
                } else {
                    typ
                };
                let st = if self_close {
                    stack
                } else {
                    path
                };
                let next = if te < b.len() {
                    te + 1
                } else {
                    b.len() as int
                };
                if name == system_leaf() && !self_close && sys is None {
                    let tx = find_byte(b, 60, next);
                    let text = b.subrange(next, tx);
                    let s2 = if text.len() > 0 {
                        Some(text)
                    } else {
                        None
                    };
                    xml_scan(rules, b, next, st, s2, t2)
                } else {
                    xml_scan(rules, b, next, st, sys, t2)
                }
            }
        }
    }
}

#[via_fn]
proof fn xml_scan_dec(
    rules: Seq<XmlRuleSpec>,
    b: Seq<u8>,
    i: int,
    stack: Seq<Seq<u8>>,
    sys: Option<Seq<u8>>,
    typ: Option<int>,
) {
    if 0 <= i <= b.len() && !(sys is Some && typ is Some) {
        lemma_find_byte_bounds(b, 60, i);
        let k = find_byte(b, 60, i);
        if k + 1 < b.len() {
            if b[k + 1] == 47 {
                lemma_name_end_bounds(b, k + 2);
            } else if b[k + 1] == 33 || b[k + 1] == 63 {
                lemma_find_byte_bounds(b, 62, k + 2);
            } else {
                lemma_name_end_bounds(b, k + 1);
                let ne = name_end(b, k + 1);
                if ne != k + 1 {
                    lemma_tag_end_bounds(b, ne, 0);
                    let te = tag_end(b, ne, 0);
                    if te < b.len() {
                        lemma_find_byte_bounds(b, 60, te + 1);
                    }
                }
            }
        }
    }
}

/// Run the streaming scan over a whole body: the captured system text and
/// the index of the first rule that fired, if either was found.
pub fn scan_body(rules: &Vec<XmlRule>, b: &[u8]) -> (r: (Option<Vec<u8>>, Option<usize>))
    ensures
        ({
            let spec = xml_scan(rules_view(rules@), b@, 0, Seq::empty(), None, None);
            &&& (match r.0 {
                Some(v) => spec.0 == Some(v@),
                None => spec.0 is None,
            })
            &&& (match r.1 {
                Some(t) => spec.1 == Some(t as int) && t < rules@.len(),
                None => spec.1 is None,
            })
        }),
{
    let n = b.len();
    let ghost rv = rules_view(rules@);
    let mut i: usize = 0;
    let mut stack: Vec<Vec<u8>> = Vec::new();
    let mut sys: Option<Vec<u8>> = None;
    let mut typ: Option<usize> = None;
    proof {
        assert(stack.deep_view() =~= Seq::<Seq<u8>>::empty());
    }
    while i < n && !(sys.is_some() && typ.is_some())
        invariant
            n == b@.len(),
            rv == rules_view(rules@),
            i <= n,
            typ matches Some(t) ==> t < rules@.len(),
            xml_scan(rv, b@, 0, Seq::empty(), None, None) == xml_scan(
                rv,
                b@,
                i as int,
                stack.deep_view(),
                match sys {
                    Some(ref v) => Some(v@),
                    None => None,
                },
                match typ {
                    Some(t) => Some(t as int),
                    None => None,
                },
            ),
        decreases n - i,
    {
        let ghost gi = i as int;
        let ghost gstack = stack.deep_view();
        let ghost gsys: Option<Seq<u8>> = match sys {
            Some(ref v) => Some(v@),
            None => None,
        };
        let ghost gtyp: Option<int> = match typ {
            Some(t) => Some(t as int),
            None => None,
        };
        let k = find_byte_exec(b, 60, i);
        proof {
            lemma_find_byte_bounds(b@, 60, gi);
        }
        if k >= n || k + 1 >= n {
            i = n;
            proof {
                assert(xml_scan(rv, b@, gi, gstack, gsys, gtyp) == (gsys, gtyp));
                assert(xml_scan(rv, b@, n as int, stack.deep_view(), gsys, gtyp) == (
                    gsys,
                    gtyp,
                ));
            }
        } else if b[k + 1] == 47 {
            let ne = name_end_exec(b, k + 2);
            let name = local_name_exec(b, k + 2, ne);
            if stack.len() > 0 && crate::text::bytes_eq(
                stack[stack.len() - 1].as_slice(),
                name.as_slice(),
            ) {
                proof {
                    assert(gstack.last() == stack@[gstack.len() - 1].deep_view());
                    assert(gstack.last() =~= stack@[gstack.len() - 1]@);
                }
                stack.pop();
                proof {
                    assert(stack.deep_view() =~= gstack.drop_last());
                }
            } else {
                proof {
                    if gstack.len() > 0 {
                        assert(gstack.last() =~= stack@[gstack.len() - 1]@);
                    }
                }
            }
            i = ne;
        } else if b[k + 1] == 33 || b[k + 1] == 63 {
            let e = find_byte_exec(b, 62, k + 2);
            if e < n {
                i = e + 1;
            } else {
                i = n;
            }
        } else {
            let ne = name_end_exec(b, k + 1);
            if ne == k + 1 {
                i = k + 2;
            } else {
                let name = local_name_exec(b, k + 1, ne);
                let te = tag_end_exec(b, ne);
                let self_close = te > ne && b[te - 1] == 47;
                let attrs = attrs_from_exec(b, ne, te);
                let ghost gattrs = attrs_from(b@, ne as int, te as int);
                proof {
                    assert(attrs@.map_values(|p: (Vec<u8>, Vec<u8>)| (p.0@, p.1@)) =~= gattrs);
                }
                stack.push(name);
                proof {
                    assert(stack.deep_view() =~~= gstack.push(
                        local_name(b@.subrange(k + 1, ne as int)),
                    ));
                }
                if typ.is_none() {
                    typ = first_rule_exec(rules, &stack, &attrs);
                }
                let next = if te < n {
                    te + 1
                } else {
                    n
                };
                let leaf = is_system_leaf(&stack[stack.len() - 1]);
                proof {
                    assert(stack@[stack@.len() - 1]@ == local_name(
                        b@.subrange(k + 1, ne as int),
                    ));
                }
                if leaf && !self_close && sys.is_none() {
                    let tx = find_byte_exec(b, 60, next);
                    if tx > next {
                        let text = copy_range(b, next, tx);
                        sys = Some(text);
                    }
                    proof {
                        assert(b@.subrange(next as int, find_byte(b@, 60, next as int)).len() > 0
                            <==> find_byte(b@, 60, next as int) > next);
                    }
                }
                if self_close {
                    stack.pop();
                    proof {
                        assert(stack.deep_view() =~= gstack);
                    }
                }
                i = next;
            }
        }
        proof {
            assert(xml_scan(rv, b@, gi, gstack, gsys, gtyp) == xml_scan(
                rv,
                b@,
                i as int,
                stack.deep_view(),
                match sys {
                    Some(ref v) => Some(v@),
                    None => None,
                },
                match typ {
                    Some(t) => Some(t as int),
                    None => None,
                },
            ));
        }
    }
    proof {
        let gsys2: Option<Seq<u8>> = match sys {
            Some(ref v) => Some(v@),
            None => None,
        };
        let gtyp2: Option<int> = match typ {
            Some(t) => Some(t as int),
            None => None,
        };
        if sys.is_some() && typ.is_some() {
            assert(xml_scan(rv, b@, i as int, stack.deep_view(), gsys2, gtyp2) == (
                gsys2,
                gtyp2,
            ));
        } else if i >= n {
            assert(xml_scan(
                rv,
                b@,
                i as int,
                stack.deep_view(),
                match sys {
                    Some(ref v) => Some(v@),
                    None => None,
                },
                match typ {
                    Some(t) => Some(t as int),
                    None => None,
                },
            ) == (
                match sys {
                    Some(ref v) => Some(v@),
                    None => None,
                },
                match typ {
                    Some(t) => Some(t as int),
                    None => None,
                },
            )) by {
                lemma_find_byte_bounds(b@, 60, i as int);
            }
        }
    }
    (sys, typ)
}

/// Finding a byte inside a subrange mirrors finding it in the whole,
/// within the window.
proof fn lemma_find_byte_sub(b: Seq<u8>, s: int, end: int, x: u8)
    requires
        0 <= s <= end <= b.len(),
    ensures
        ({
            let cur = b.subrange(s, end);
            let k = find_byte(b, x, s);
            &&& (k < end ==> find_byte(cur, x, 0) == k - s)
            &&& (k >= end ==> find_byte(cur, x, 0) >= cur.len())
        }),
{
    let cur = b.subrange(s, end);
    lemma_find_byte_bounds(b, x, s);
    lemma_find_byte_bounds(cur, x, 0);
    let k = find_byte(b, x, s);
    let k2 = find_byte(cur, x, 0);
    if k < end {
        if k2 < cur.len() {
            assert(b[s + k2] == x);
            assert(cur[k - s] == x);
        } else {
            assert(cur[k - s] == x);
        }
    } else {
        if k2 < cur.len() {
            assert(b[s + k2] == x);
        }
    }
}

} // verus!
