//! Small verified text utilities shared by the tokenizer, the filter
//! evaluator and the content classifier: whitespace tests, string and byte
//! comparisons, substring search and integer parsing.

use vstd::prelude::*;

verus! {

/// The Unicode whitespace characters, as `char::is_whitespace` counts them.
pub open spec fn is_space_char(c: char) -> bool {
    c == ' ' || c == '\t' || c == '\n' || c == '\u{b}' || c == '\u{c}' || c == '\r'
        || c == '\u{85}' || c == '\u{a0}' || c == '\u{1680}'
        || ('\u{2000}' <= c && c <= '\u{200a}')
        || c == '\u{2028}' || c == '\u{2029}' || c == '\u{202f}' || c == '\u{205f}'
        || c == '\u{3000}'
}

/// Decide whether `c` separates tokens outside quotes.
pub fn is_space(c: char) -> (r: bool)
    ensures
        r == is_space_char(c),
{
    c == ' ' || c == '\t' || c == '\n' || c == '\u{b}' || c == '\u{c}' || c == '\r'
        || c == '\u{85}' || c == '\u{a0}' || c == '\u{1680}'
        || ('\u{2000}' <= c && c <= '\u{200a}')
        || c == '\u{2028}' || c == '\u{2029}' || c == '\u{202f}' || c == '\u{205f}'
        || c == '\u{3000}'
}

/// The characters of `s`, one vector element per `char`.
pub fn str_to_chars(s: &str) -> (r: Vec<char>)
    ensures
        r@ == s@,
{
    let n = s.unicode_len();
    let mut r: Vec<char> = Vec::new();
    let mut i: usize = 0;
    while i < n
        invariant
            n == s@.len(),
            i <= n,
            r@ == s@.subrange(0, i as int),
        decreases n - i,
    {
        r.push(s.get_char(i));
        i = i + 1;
        proof {
            assert(r@ =~= s@.subrange(0, i as int));
        }
    }
    proof {
        assert(r@ =~= s@);
    }
    r
}

/// Relies on `String: FromIterator<char>`: collecting yields exactly the
/// characters of the iterator, in order.
#[verifier::external_body]
pub fn chars_to_string(cs: &Vec<char>) -> (r: String)
    ensures
        r@ == cs@,
{
    cs.iter().collect()
}

/// Character-for-character string equality.
pub fn str_eq(a: &str, b: &str) -> (r: bool)
    ensures
        r == (a@ == b@),
{
    let na = a.unicode_len();
    let nb = b.unicode_len();
    if na != nb {
        return false;
    }
    let mut i: usize = 0;
    while i < na
        invariant
            na == a@.len(),
            na == b@.len(),
            i <= na,
            forall|j: int| 0 <= j < i ==> a@[j] == b@[j],
        decreases na - i,
    {
        if a.get_char(i) != b.get_char(i) {
            return false;
        }
        i = i + 1;
    }
    proof {
        assert(a@ =~= b@);
    }
    true
}

/// Whether `p` is a prefix of `s`, character for character.
pub open spec fn starts_with(s: Seq<char>, p: Seq<char>) -> bool {
    s.len() >= p.len() && s.subrange(0, p.len() as int) == p
}

/// Decide whether the string `s` starts with `p`.
pub fn str_starts_with(s: &str, p: &str) -> (r: bool)
    ensures
        r == starts_with(s@, p@),
{
    let ns = s.unicode_len();
    let np = p.unicode_len();
    if ns < np {
        return false;
    }
    let mut i: usize = 0;
    while i < np
        invariant
            ns == s@.len(),
            np == p@.len(),
            np <= ns,
            i <= np,
            forall|j: int| 0 <= j < i ==> s@[j] == p@[j],
        decreases np - i,
    {
        if s.get_char(i) != p.get_char(i) {
            proof {
                assert(s@.subrange(0, np as int)[i as int] != p@[i as int]);
            }
            return false;
        }
        i = i + 1;
    }
    proof {
        assert(s@.subrange(0, np as int) =~= p@);
    }
    true
}

/// Byte-for-byte equality of two slices.
pub fn bytes_eq(a: &[u8], b: &[u8]) -> (r: bool)
    ensures
        r == (a@ == b@),
{
    let na = a.len();
    let nb = b.len();
    if na != nb {
        return false;
    }
    let mut i: usize = 0;
    while i < na
        invariant
            na == a@.len(),
            na == b@.len(),
            i <= na,
            forall|j: int| 0 <= j < i ==> a@[j] == b@[j],
        decreases na - i,
    {
        if a[i] != b[i] {
            return false;
        }
        i = i + 1;
    }
    proof {
        assert(a@ =~= b@);
    }
    true
}

/// Byte-wise lexicographic order: `a` no greater than `b`.
pub open spec fn bytes_le(a: Seq<u8>, b: Seq<u8>) -> bool
    decreases a.len(),
{
    if a.len() == 0 {
        true
    } else if b.len() == 0 {
        false
    } else if a[0] < b[0] {
        true
    } else if a[0] > b[0] {
        false
    } else {
        bytes_le(a.skip(1), b.skip(1))
    }
}

proof fn lemma_bytes_le_step(a: Seq<u8>, b: Seq<u8>, i: int)
    requires
        0 <= i,
        i < a.len(),
        i < b.len(),
        forall|j: int| 0 <= j < i ==> a[j] == b[j],
    ensures
        a[i] < b[i] ==> bytes_le(a, b),
        a[i] > b[i] ==> !bytes_le(a, b),
    decreases i,
{
    if i == 0 {
    } else {
        assert(a.skip(1)[i - 1] == a[i]);
        assert(b.skip(1)[i - 1] == b[i]);
        assert(forall|j: int| 0 <= j < i - 1 ==> a.skip(1)[j] == b.skip(1)[j]);
        lemma_bytes_le_step(a.skip(1), b.skip(1), i - 1);
    }
}

proof fn lemma_bytes_le_prefix(a: Seq<u8>, b: Seq<u8>)
    requires
        a.len() <= b.len(),
        forall|j: int| 0 <= j < a.len() ==> a[j] == b[j],
    ensures
        bytes_le(a, b),
    decreases a.len(),
{
    if a.len() == 0 {
    } else {
        assert(forall|j: int| 0 <= j < a.skip(1).len() ==> a.skip(1)[j] == b.skip(1)[j]);
        lemma_bytes_le_prefix(a.skip(1), b.skip(1));
    }
}

/// Decide `bytes_le` on two slices.
pub fn bytes_le_exec(a: &[u8], b: &[u8]) -> (r: bool)
    ensures
        r == bytes_le(a@, b@),
{
    let na = a.len();
    let nb = b.len();
    let n = if na < nb { na } else { nb };
    let mut i: usize = 0;
    while i < n
        invariant
            na == a@.len(),
            nb == b@.len(),
            n == if na < nb { na } else { nb },
            i <= n,
            forall|j: int| 0 <= j < i ==> a@[j] == b@[j],
        decreases n - i,
    {
        if a[i] < b[i] {
            proof {
                lemma_bytes_le_step(a@, b@, i as int);
            }
            return true;
        }
        if a[i] > b[i] {
            proof {
                lemma_bytes_le_step(a@, b@, i as int);
            }
            return false;
        }
        i = i + 1;
    }
    proof {
        if na <= nb {
            lemma_bytes_le_prefix(a@, b@);
        } else {
            lemma_bytes_le_antisym_len(a@, b@);
        }
    }
    na <= nb
}

proof fn lemma_bytes_le_antisym_len(a: Seq<u8>, b: Seq<u8>)
    requires
        b.len() < a.len(),
        forall|j: int| 0 <= j < b.len() ==> a[j] == b[j],
    ensures
        !bytes_le(a, b),
    decreases b.len(),
{
    if b.len() == 0 {
    } else {
        assert(forall|j: int| 0 <= j < b.skip(1).len() ==> a.skip(1)[j] == b.skip(1)[j]);
        lemma_bytes_le_antisym_len(a.skip(1), b.skip(1));
    }
}

pub proof fn lemma_bytes_le_total(a: Seq<u8>, b: Seq<u8>)
    ensures
        bytes_le(a, b) || bytes_le(b, a),
    decreases a.len(),
{
    if a.len() > 0 && b.len() > 0 && a[0] == b[0] {
        lemma_bytes_le_total(a.skip(1), b.skip(1));
    }
}

pub proof fn lemma_bytes_le_antisym(a: Seq<u8>, b: Seq<u8>)
    requires
        bytes_le(a, b),
        bytes_le(b, a),
    ensures
        a == b,
    decreases a.len(),
{
    if a.len() > 0 && b.len() > 0 && a[0] == b[0] {
        lemma_bytes_le_antisym(a.skip(1), b.skip(1));
        assert(a =~= seq![a[0]] + a.skip(1));
        assert(b =~= seq![b[0]] + b.skip(1));
    } else {
        assert(a.len() == 0 || b.len() == 0);
        if a.len() == 0 {
            assert(b.len() == 0);
        }
        assert(a =~= b);
    }
}

pub proof fn lemma_bytes_le_trans(a: Seq<u8>, b: Seq<u8>, c: Seq<u8>)
    requires
        bytes_le(a, b),
        bytes_le(b, c),
    ensures
        bytes_le(a, c),
    decreases a.len(),
{
    if a.len() > 0 && b.len() > 0 && c.len() > 0 {
        if a[0] == b[0] && b[0] == c[0] {
            lemma_bytes_le_trans(a.skip(1), b.skip(1), c.skip(1));
        }
    }
}

/// ASCII case folding of one byte: upper-case letters map to lower case.
pub open spec fn fold_byte(b: u8) -> u8 {
    if 65 <= b && b <= 90 {
        (b + 32) as u8
    } else {
        b
    }
}

/// The needle occurs in the haystack at position `i`, compared after ASCII
/// case folding.
pub open spec fn ci_match_at(hay: Seq<u8>, needle: Seq<u8>, i: int) -> bool {
    &&& 0 <= i
    &&& i + needle.len() <= hay.len()
    &&& forall|j: int| 0 <= j < needle.len() ==> fold_byte(hay[i + j]) == fold_byte(needle[j])
}

/// ASCII-case-insensitive substring containment, the sense in which free
/// text and header values are matched.
pub open spec fn contains_ci(hay: Seq<u8>, needle: Seq<u8>) -> bool {
    exists|i: int| ci_match_at(hay, needle, i)
}

fn fold_byte_exec(b: u8) -> (r: u8)
    ensures
        r == fold_byte(b),
{
    if 65 <= b && b <= 90 {
        b + 32
    } else {
        b
    }
}

fn ci_match_at_exec(hay: &[u8], needle: &[u8], i: usize) -> (r: bool)
    requires
        i + needle@.len() <= hay@.len(),
    ensures
        r == ci_match_at(hay@, needle@, i as int),
{
    let nn = needle.len();
    let nh = hay.len();
    let mut j: usize = 0;
    while j < nn
        invariant
            nn == needle@.len(),
            nh == hay@.len(),
            i + nn <= nh,
            j <= nn,
            forall|l: int| 0 <= l < j ==> fold_byte(hay@[i + l]) == fold_byte(needle@[l]),
        decreases nn - j,
    {
        if fold_byte_exec(hay[i + j]) != fold_byte_exec(needle[j]) {
            proof {
                assert(fold_byte(hay@[i + j]) != fold_byte(needle@[j as int]));
            }
            return false;
        }
        j = j + 1;
    }
    true
}

/// Decide case-insensitive containment of `needle` in `hay`.
pub fn contains_ci_exec(hay: &[u8], needle: &[u8]) -> (r: bool)
    ensures
        r == contains_ci(hay@, needle@),
{
    let nh = hay.len();
    let nn = needle.len();
    if nn > nh {
        return false;
    }
    let mut i: usize = 0;
    while i <= nh - nn
        invariant
            nh == hay@.len(),
            nn == needle@.len(),
            nn <= nh,
            i <= nh - nn + 1,
            forall|k: int| 0 <= k < i ==> !ci_match_at(hay@, needle@, k),
        decreases nh - nn + 1 - i,
    {
        if ci_match_at_exec(hay, needle, i) {
            return true;
        }
        i = i + 1;
    }
    proof {
        assert(forall|k: int| ci_match_at(hay@, needle@, k) ==> 0 <= k <= nh - nn);
    }
    false
}

/// The needle occurs byte-for-byte at position `i`.
pub open spec fn match_at(hay: Seq<u8>, needle: Seq<u8>, i: int) -> bool {
    &&& 0 <= i
    &&& i + needle.len() <= hay.len()
    &&& forall|j: int| 0 <= j < needle.len() ==> hay[i + j] == needle[j]
}

pub fn match_at_exec(hay: &[u8], needle: &[u8], i: usize) -> (r: bool)
    requires
        i + needle@.len() <= hay@.len(),
    ensures
        r == match_at(hay@, needle@, i as int),
{
    let nn = needle.len();
    let nh = hay.len();
    let mut j: usize = 0;
    while j < nn
        invariant
            nn == needle@.len(),
            nh == hay@.len(),
            i + nn <= nh,
            j <= nn,
            forall|l: int| 0 <= l < j ==> hay@[i + l] == needle@[l],
        decreases nn - j,
    {
        if hay[i + j] != needle[j] {
            return false;
        }
        j = j + 1;
    }
    true
}

/// Find the first byte-for-byte occurrence of `needle` in `hay`.
pub fn find_sub(hay: &[u8], needle: &[u8]) -> (r: Option<usize>)
    ensures
        match r {
            Some(i) => match_at(hay@, needle@, i as int) && forall|k: int|
                0 <= k < i ==> !match_at(hay@, needle@, k),
            None => forall|k: int| !match_at(hay@, needle@, k),
        },
{
    let nh = hay.len();
    let nn = needle.len();
    if nn > nh {
        proof {
            assert(forall|k: int| match_at(hay@, needle@, k) ==> k + nn <= nh);
        }
        return None;
    }
    let mut i: usize = 0;
    while i <= nh - nn
        invariant
            nh == hay@.len(),
            nn == needle@.len(),
            nn <= nh,
            i <= nh - nn + 1,
            forall|k: int| 0 <= k < i ==> !match_at(hay@, needle@, k),
        decreases nh - nn + 1 - i,
    {
        if match_at_exec(hay, needle, i) {
            return Some(i);
        }
        i = i + 1;
    }
    proof {
        assert(forall|k: int| match_at(hay@, needle@, k) ==> 0 <= k <= nh - nn);
    }
    None
}

/// The position of the first occurrence of `c` at or after `i`, if any.
pub open spec fn find_char(s: Seq<char>, c: char, i: int) -> Option<int>
    decreases s.len() - i
    when 0 <= i <= s.len()
{
    if i >= s.len() {
        None
    } else if s[i] == c {
        Some(i)
    } else {
        find_char(s, c, i + 1)
    }
}

pub proof fn lemma_find_char_bounds(s: Seq<char>, c: char, i: int)
    requires
        0 <= i <= s.len(),
    ensures
        match find_char(s, c, i) {
            Some(k) => i <= k < s.len() && s[k] == c && forall|j: int| i <= j < k ==> s[j] != c,
            None => forall|j: int| i <= j < s.len() ==> s[j] != c,
        },
    decreases s.len() - i,
{
    if i < s.len() && s[i] != c {
        lemma_find_char_bounds(s, c, i + 1);
    }
}

/// Leading whitespace removed.
pub open spec fn trim_start_spec(s: Seq<char>) -> Seq<char>
    decreases s.len(),
{
    if s.len() > 0 && is_space_char(s[0]) {
        trim_start_spec(s.skip(1))
    } else {
        s
    }
}

/// Trailing whitespace removed.
pub open spec fn trim_end_spec(s: Seq<char>) -> Seq<char>
    decreases s.len(),
{
    if s.len() > 0 && is_space_char(s.last()) {
        trim_end_spec(s.drop_last())
    } else {
        s
    }
}

/// Leading and trailing whitespace removed.
pub open spec fn trim_spec(s: Seq<char>) -> Seq<char> {
    trim_end_spec(trim_start_spec(s))
}

/// Copy `cs[start..end]` with surrounding whitespace removed.
fn trim_chars(cs: &Vec<char>, start: usize, end: usize) -> (r: Vec<char>)
    requires
        start <= end <= cs@.len(),
    ensures
        r@ == trim_spec(cs@.subrange(start as int, end as int)),
{
    let mut a: usize = start;
    while a < end && is_space(cs[a])
        invariant
            start <= a <= end <= cs@.len(),
            trim_start_spec(cs@.subrange(start as int, end as int)) == trim_start_spec(
                cs@.subrange(a as int, end as int),
            ),
        decreases end - a,
    {
        proof {
            assert(cs@.subrange(a as int, end as int).skip(1) =~= cs@.subrange(
                a + 1,
                end as int,
            ));
        }
        a = a + 1;
    }
    proof {
        assert(trim_start_spec(cs@.subrange(a as int, end as int)) == cs@.subrange(
            a as int,
            end as int,
        ));
    }
    let mut b: usize = end;
    while b > a && is_space(cs[b - 1])
        invariant
            a <= b <= end <= cs@.len(),
            trim_end_spec(cs@.subrange(a as int, end as int)) == trim_end_spec(
                cs@.subrange(a as int, b as int),
            ),
        decreases b,
    {
        proof {
            assert(cs@.subrange(a as int, b as int).drop_last() =~= cs@.subrange(
                a as int,
                b - 1,
            ));
        }
        b = b - 1;
    }
    proof {
        assert(trim_end_spec(cs@.subrange(a as int, b as int)) == cs@.subrange(
            a as int,
            b as int,
        ));
    }
    let mut r: Vec<char> = Vec::new();
    let mut c: usize = a;
    while c < b
        invariant
            a <= c <= b <= cs@.len(),
            r@ == cs@.subrange(a as int, c as int),
        decreases b - c,
    {
        r.push(cs[c]);
        proof {
            assert(r@ =~= cs@.subrange(a as int, c + 1));
        }
        c = c + 1;
    }
    proof {
        assert(r@ =~= cs@.subrange(a as int, b as int));
    }
    r
}

/// A comma-separated allow-list, each element trimmed of surrounding
/// whitespace. Splitting never yields an empty list: an empty string is one
/// empty element.
pub open spec fn split_commas(s: Seq<char>) -> Seq<Seq<char>>
    decreases s.len()
    via split_commas_dec
{
    match find_char(s, ',', 0) {
        Some(i) => seq![trim_spec(s.subrange(0, i))] + split_commas(
            s.subrange(i + 1, s.len() as int),
        ),
        None => seq![trim_spec(s)],
    }
}

#[via_fn]
proof fn split_commas_dec(s: Seq<char>) {
    lemma_find_char_bounds(s, ',', 0);
}

/// Split a comma-separated list into its trimmed elements.
pub fn split_commas_exec(s: &str) -> (r: Vec<String>)
    ensures
        r.deep_view() == split_commas(s@),
{
    let cs = str_to_chars(s);
    let n = cs.len();
    let mut r: Vec<String> = Vec::new();
    let mut start: usize = 0;
    let mut i: usize = 0;
    proof {
        assert(s@.subrange(0, n as int) =~= s@);
    }
    while i < n
        invariant
            n == s@.len(),
            cs@ == s@,
            start <= i <= n,
            forall|j: int| start <= j < i ==> s@[j] != ',',
            split_commas(s@) == r.deep_view() + split_commas(s@.subrange(start as int, n as int)),
        decreases n - i,
    {
        if cs[i] == ',' {
            let ghost rest = s@.subrange(start as int, n as int);
            let piece = trim_chars(&cs, start, i);
            let ghost r0 = r.deep_view();
            r.push(chars_to_string(&piece));
            proof {
                lemma_find_char_bounds(rest, ',', 0);
                assert(rest[i - start] == ',');
                assert(find_char(rest, ',', 0) == Some(i - start as int)) by {
                    lemma_find_char_first(rest, ',', (i - start) as int);
                }
                assert(rest.subrange(0, i - start as int) =~= s@.subrange(start as int, i as int));
                assert(rest.subrange(i - start + 1, rest.len() as int) =~= s@.subrange(
                    i + 1,
                    n as int,
                ));
                assert(r.deep_view() =~= r0.push(trim_spec(s@.subrange(start as int, i as int))));
                assert(r.deep_view() + split_commas(s@.subrange(i + 1, n as int)) =~= r0 + (seq![
                    trim_spec(s@.subrange(start as int, i as int)),
                ] + split_commas(s@.subrange(i + 1, n as int))));
            }
            start = i + 1;
            i = i + 1;
        } else {
            i = i + 1;
        }
    }
    let ghost rest = s@.subrange(start as int, n as int);
    let piece = trim_chars(&cs, start, n);
    let ghost r0 = r.deep_view();
    r.push(chars_to_string(&piece));
    proof {
        lemma_find_char_none(rest, ',');
        assert(r.deep_view() =~= r0.push(trim_spec(rest)));
        assert(r.deep_view() =~= r0 + seq![trim_spec(rest)]);
    }
    r
}

pub proof fn lemma_find_char_first(s: Seq<char>, c: char, i: int)
    requires
        0 <= i < s.len(),
        s[i] == c,
        forall|j: int| 0 <= j < i ==> s[j] != c,
    ensures
        find_char(s, c, 0) == Some(i),
{
    lemma_find_char_from(s, c, 0, i);
}

proof fn lemma_find_char_from(s: Seq<char>, c: char, k: int, i: int)
    requires
        0 <= k <= i < s.len(),
        s[i] == c,
        forall|j: int| k <= j < i ==> s[j] != c,
    ensures
        find_char(s, c, k) == Some(i),
    decreases i - k,
{
    if k < i {
        lemma_find_char_from(s, c, k + 1, i);
    }
}

pub proof fn lemma_find_char_none(s: Seq<char>, c: char)
    requires
        forall|j: int| 0 <= j < s.len() ==> s[j] != c,
    ensures
        find_char(s, c, 0) is None,
{
    lemma_find_char_none_from(s, c, 0);
}

proof fn lemma_find_char_none_from(s: Seq<char>, c: char, k: int)
    requires
        0 <= k <= s.len(),
        forall|j: int| k <= j < s.len() ==> s[j] != c,
    ensures
        find_char(s, c, k) is None,
    decreases s.len() - k,
{
    if k < s.len() {
        lemma_find_char_none_from(s, c, k + 1);
    }
}

/// An ASCII decimal digit.
pub open spec fn is_digit(b: u8) -> bool {
    48 <= b && b <= 57
}

/// ASCII whitespace, as both the XML scanner and the correlation-field
/// scanner count it.
pub open spec fn is_ws_byte(b: u8) -> bool {
    b == 9 || b == 10 || b == 11 || b == 12 || b == 13 || b == 32
}

/// Decide `is_ws_byte`.
pub fn is_ws_byte_exec(b: u8) -> (r: bool)
    ensures
        r == is_ws_byte(b),
{
    b == 9 || b == 10 || b == 11 || b == 12 || b == 13 || b == 32
}

/// The first position at or after `i` whose byte fails `p`-ness expressed
/// by the caller; here: the end of the whitespace run starting at `i`.
pub open spec fn ws_end(b: Seq<u8>, i: int) -> int
    decreases b.len() - i
    when 0 <= i <= b.len()
{
    if i >= b.len() {
        i
    } else if is_ws_byte(b[i]) {
        ws_end(b, i + 1)
    } else {
        i
    }
}

/// Skip the whitespace run starting at `i`.
pub fn ws_end_exec(b: &[u8], i: usize) -> (r: usize)
    requires
        i <= b@.len(),
    ensures
        r == ws_end(b@, i as int),
        i <= r <= b@.len(),
    decreases b@.len() - i,
{
    let n = b.len();
    let mut j: usize = i;
    while j < n && is_ws_byte_exec(b[j])
        invariant
            n == b@.len(),
            i <= j <= n,
            ws_end(b@, i as int) == ws_end(b@, j as int),
        decreases n - j,
    {
        j = j + 1;
    }
    j
}

/// The end of the digit run starting at `i`.
pub open spec fn digit_end(b: Seq<u8>, i: int) -> int
    decreases b.len() - i
    when 0 <= i <= b.len()
{
    if i >= b.len() {
        i
    } else if is_digit(b[i]) {
        digit_end(b, i + 1)
    } else {
        i
    }
}

/// Skip the digit run starting at `i`.
pub fn digit_end_exec(b: &[u8], i: usize) -> (r: usize)
    requires
        i <= b@.len(),
    ensures
        r == digit_end(b@, i as int),
        i <= r <= b@.len(),
{
    let n = b.len();
    let mut j: usize = i;
    while j < n && b[j] >= 48 && b[j] <= 57
        invariant
            n == b@.len(),
            i <= j <= n,
            digit_end(b@, i as int) == digit_end(b@, j as int),
        decreases n - j,
    {
        j = j + 1;
    }
    j
}

/// The first position at or after `i` holding byte `x`, or the length.
pub open spec fn find_byte(b: Seq<u8>, x: u8, i: int) -> int
    decreases b.len() - i
    when 0 <= i <= b.len()
{
    if i >= b.len() {
        i
    } else if b[i] == x {
        i
    } else {
        find_byte(b, x, i + 1)
    }
}

pub proof fn lemma_find_byte_bounds(b: Seq<u8>, x: u8, i: int)
    requires
        0 <= i <= b.len(),
    ensures
        i <= find_byte(b, x, i) <= b.len(),
        find_byte(b, x, i) < b.len() ==> b[find_byte(b, x, i)] == x,
        forall|k: int| i <= k < find_byte(b, x, i) ==> b[k] != x,
    decreases b.len() - i,
{
    if i < b.len() && b[i] != x {
        lemma_find_byte_bounds(b, x, i + 1);
    }
}

/// Find byte `x` at or after `i`, returning the length when absent.
pub fn find_byte_exec(b: &[u8], x: u8, i: usize) -> (r: usize)
    requires
        i <= b@.len(),
    ensures
        r == find_byte(b@, x, i as int),
        i <= r <= b@.len(),
{
    let n = b.len();
    let mut j: usize = i;
    while j < n && b[j] != x
        invariant
            n == b@.len(),
            i <= j <= n,
            find_byte(b@, x, i as int) == find_byte(b@, x, j as int),
        decreases n - j,
    {
        j = j + 1;
    }
    j
}

/// The digits of a decimal spelling: everything after an optional sign.
pub open spec fn digits_part(s: Seq<u8>) -> Seq<u8> {
    if s.len() > 0 && (s[0] == 43 || s[0] == 45) {
        s.skip(1)
    } else {
        s
    }
}

/// Every byte is an ASCII digit.
pub open spec fn all_digits(d: Seq<u8>) -> bool {
    forall|i: int| 0 <= i < d.len() ==> is_digit(#[trigger] d[i])
}

/// The bytes spell a well-formed decimal integer: an optional sign followed
/// by at least one digit.
pub open spec fn int_shape(s: Seq<u8>) -> bool {
    digits_part(s).len() > 0 && all_digits(digits_part(s))
}

/// The value of a digit string, most significant digit first.
pub open spec fn digits_val(d: Seq<u8>) -> int
    decreases d.len(),
{
    if d.len() == 0 {
        0
    } else {
        digits_val(d.drop_last()) * 10 + (d.last() - 48)
    }
}

/// The signed value the bytes spell, meaningful when `int_shape` holds.
pub open spec fn int_val(s: Seq<u8>) -> int {
    if s.len() > 0 && s[0] == 45 {
        -digits_val(digits_part(s))
    } else {
        digits_val(digits_part(s))
    }
}

/// What `i64::from_str` would return on these bytes read as text: the spelt
/// value when well formed and within range, nothing otherwise.
pub open spec fn parse_i64_spec(s: Seq<u8>) -> Option<i64> {
    if int_shape(s) && i64::MIN <= int_val(s) <= i64::MAX {
        Some(int_val(s) as i64)
    } else {
        None
    }
}

proof fn lemma_digits_val_nonneg(d: Seq<u8>)
    requires
        forall|i: int| 0 <= i < d.len() ==> is_digit(#[trigger] d[i]),
    ensures
        digits_val(d) >= 0,
    decreases d.len(),
{
    if d.len() > 0 {
        assert(forall|i: int| 0 <= i < d.drop_last().len() ==> is_digit(#[trigger] d.drop_last()[i]));
        lemma_digits_val_nonneg(d.drop_last());
    }
}

proof fn lemma_digits_val_mono(d: Seq<u8>, i: int)
    requires
        0 <= i <= d.len(),
        forall|k: int| 0 <= k < d.len() ==> is_digit(#[trigger] d[k]),
    ensures
        digits_val(d.take(i)) <= digits_val(d),
    decreases d.len() - i,
{
    if i < d.len() {
        let t = d.take(i + 1);
        assert(t.drop_last() =~= d.take(i));
        assert(forall|k: int| 0 <= k < t.len() ==> is_digit(#[trigger] t[k]));
        lemma_digits_val_nonneg(d.take(i));
        assert(digits_val(t) == digits_val(d.take(i)) * 10 + (d[i] - 48));
        assert(digits_val(d.take(i)) * 10 >= digits_val(d.take(i))) by (nonlinear_arith)
            requires
                digits_val(d.take(i)) >= 0,
        ;
        lemma_digits_val_mono(d, i + 1);
        assert(d.take(d.len() as int) =~= d);
    } else {
        assert(d.take(i) =~= d);
    }
}

/// Parse the bytes as a decimal `i64`, exactly as `i64::from_str` would.
pub fn parse_i64(s: &[u8]) -> (r: Option<i64>)
    ensures
        r == parse_i64_spec(s@),
{
    let n = s.len();
    if n == 0 {
        return None;
    }
    let neg = s[0] == 45;
    let start: usize = if s[0] == 43 || s[0] == 45 {
        1
    } else {
        0
    };
    let ghost d = s@.skip(start as int);
    if n == start {
        return None;
    }
    // magnitude accumulated as a non-negative u64
    let mut mag: u64 = 0;
    let mut i: usize = start;
    while i < n
        invariant
            n == s@.len(),
            start <= i <= n,
            start < n,
            start == 0 || start == 1,
            (s@[0] == 43 || s@[0] == 45) <==> start == 1,
            d == s@.skip(start as int),
            forall|k: int| start <= k < i ==> is_digit(#[trigger] s@[k]),
            mag == digits_val(d.take(i - start)),
        decreases n - i,
    {
        let b: u8 = s[i];
        proof {
            assert(d[i - start] == s@[i as int]);
        }
        if b < 48 || b > 57 {
            proof {
                assert(!is_digit(d[i - start]));
                not_int_shape(d, (i - start) as int, s@, start as int);
            }
            return None;
        }
        let dig: u64 = (b - 48) as u64;
        let m10: u64 = match mag.checked_mul(10) {
            Some(m) => m,
            None => {
                proof {
                    out_of_range(d, (i - start) as int, s@, start as int);
                }
                return None;
            },
        };
        let m: u64 = match m10.checked_add(dig) {
            Some(m) => m,
            None => {
                proof {
                    out_of_range(d, (i - start) as int, s@, start as int);
                }
                return None;
            },
        };
        proof {
            let t = d.take(i - start + 1);
            assert(t.drop_last() =~= d.take(i - start));
            assert(t.last() == d[i - start]);
        }
        mag = m;
        i = i + 1;
    }
    proof {
        assert(d.take(i - start) =~= d);
        assert(forall|k: int| 0 <= k < d.len() ==> d[k] == s@[k + start] && is_digit(
            #[trigger] d[k],
        ));
        assert(int_shape(s@));
    }
    proof {
        lemma_digits_val_nonneg(d);
        lemma_digits_part(d, s@, start as int);
        if s@[0] == 45 {
            assert(int_val(s@) == -digits_val(d));
        } else {
            assert(int_val(s@) == digits_val(d));
        }
    }
    if neg {
        if mag > 9223372036854775808u64 {
            return None;
        }
        if mag == 9223372036854775808u64 {
            return Some(i64::MIN);
        }
        Some(-(mag as i64))
    } else {
        if mag > 9223372036854775807u64 {
            return None;
        }
        Some(mag as i64)
    }
}

proof fn lemma_digits_part(d: Seq<u8>, s: Seq<u8>, start: int)
    requires
        start == 0 || start == 1,
        start <= s.len(),
        (s.len() > 0 && (s[0] == 43 || s[0] == 45)) <==> start == 1,
        d == s.skip(start),
    ensures
        digits_part(s) == d,
{
    if start == 1 {
        assert(s.skip(1) =~= d);
    } else {
        assert(s.skip(0) =~= s);
        assert(digits_part(s) == d);
    }
}

proof fn not_int_shape(d: Seq<u8>, i: int, s: Seq<u8>, start: int)
    requires
        start == 0 || start == 1,
        start <= s.len(),
        (s.len() > 0 && (s[0] == 43 || s[0] == 45)) <==> start == 1,
        d == s.skip(start),
        0 <= i < d.len(),
        !is_digit(d[i]),
    ensures
        !int_shape(s),
        parse_i64_spec(s) is None,
{
    lemma_digits_part(d, s, start);
    assert(!all_digits(d));
}

proof fn out_of_range(d: Seq<u8>, i: int, s: Seq<u8>, start: int)
    requires
        start == 0 || start == 1,
        start <= s.len(),
        (s.len() > 0 && (s[0] == 43 || s[0] == 45)) <==> start == 1,
        d == s.skip(start),
        0 <= i < d.len(),
        forall|k: int| start <= k < start + i ==> is_digit(#[trigger] s[k]),
        digits_val(d.take(i)) * 10 + (d[i] - 48) > u64::MAX,
    ensures
        parse_i64_spec(s) is None,
{
    if int_shape(s) {
        lemma_digits_part(d, s, start);
        assert(all_digits(d));
        assert(forall|k: int| 0 <= k < d.len() ==> is_digit(#[trigger] d[k]));
        let t = d.take(i + 1);
        assert(t.drop_last() =~= d.take(i));
        assert(t.last() == d[i]);
        assert(digits_val(t) == digits_val(d.take(i)) * 10 + (d[i] - 48));
        lemma_digits_val_mono(d, i + 1);
        assert(t =~= d.take(i + 1));
        assert(digits_val(d) >= digits_val(t));
        assert(digits_val(d) > u64::MAX);
        if s[0] == 45 {
            assert(int_val(s) == -digits_val(d));
            assert(int_val(s) < i64::MIN);
        } else if s[0] == 43 {
            assert(int_val(s) == digits_val(d));
            assert(int_val(s) > i64::MAX);
        } else {
            assert(int_val(s) == digits_val(d));
            assert(int_val(s) > i64::MAX);
        }
    }
}

} // verus!
