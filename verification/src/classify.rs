//! The content classifier: at ingestion time, derive the submitting
//! system, the item type, the correlation ids and the user agent from the
//! raw headers and body. Classification never fails; whatever cannot be
//! read yields nothing.
//!
//! The type is inferred from a priority-ordered rule table. The two
//! JSON-native event types come first: a body carrying the correlation
//! field is an event payload when a descriptive field accompanies it and a
//! plain event notification otherwise. All other types come from the
//! streaming scan over XML-shaped bodies.

use vstd::prelude::*;
use vstd::utf8::{encode_utf8, valid_utf8};
use crate::model::NewItemHeader;
use crate::text::{
    digit_end, digit_end_exec, is_digit, is_ws_byte, match_at, match_at_exec, parse_i64,
    parse_i64_spec, str_eq, ws_end, ws_end_exec,
};
use crate::xml::{rules_view, scan_body, xml_scan, XmlRule, XmlRuleSpec};

verus! {

/// What the UTF-8 lossy decoding of a byte sequence reads as: invalid
/// sequences become replacement characters, valid ones decode exactly.
pub uninterp spec fn lossy_utf8(b: Seq<u8>) -> Seq<char>;

/// Relies on `String::from_utf8_lossy`: the decoding depends on the bytes
/// alone; valid UTF-8 decodes to the characters it encodes, and no bytes
/// means no characters.
#[verifier::external_body]
pub fn bytes_to_string_lossy(b: &[u8]) -> (r: String)
    ensures
        r@ == lossy_utf8(b@),
        valid_utf8(b@) ==> encode_utf8(r@) == b@,
        b@.len() == 0 ==> r@.len() == 0,
{
    String::from_utf8_lossy(b).into_owned()
}

/// The first header with the given name.
pub open spec fn find_new_header(hs: Seq<NewItemHeader>, name: Seq<char>) -> Option<NewItemHeader>
    decreases hs.len(),
{
    if hs.len() == 0 {
        None
    } else if hs[0].name@ == name {
        Some(hs[0])
    } else {
        find_new_header(hs.skip(1), name)
    }
}

proof fn lemma_find_new_header_at(hs: Seq<NewItemHeader>, name: Seq<char>, i: int)
    requires
        0 <= i < hs.len(),
        hs[i].name@ == name,
        forall|j: int| 0 <= j < i ==> hs[j].name@ != name,
    ensures
        find_new_header(hs, name) == Some(hs[i]),
    decreases i,
{
    if i > 0 {
        assert(forall|j: int| 0 <= j < i - 1 ==> hs.skip(1)[j] == hs[j + 1]);
        lemma_find_new_header_at(hs.skip(1), name, i - 1);
    }
}

proof fn lemma_find_new_header_none(hs: Seq<NewItemHeader>, name: Seq<char>)
    requires
        forall|j: int| 0 <= j < hs.len() ==> hs[j].name@ != name,
    ensures
        find_new_header(hs, name) is None,
    decreases hs.len(),
{
    if hs.len() > 0 {
        assert(forall|j: int| 0 <= j < hs.len() - 1 ==> hs.skip(1)[j] == hs[j + 1]);
        lemma_find_new_header_none(hs.skip(1), name);
    }
}

/// A header names the submitting system.
pub open spec fn is_system_header(h: NewItemHeader) -> bool {
    h.name@ == "mgs-system-id"@ || h.name@ == "mgssystem"@
}

/// The first header naming the submitting system.
pub open spec fn find_system_header(hs: Seq<NewItemHeader>) -> Option<NewItemHeader>
    decreases hs.len(),
{
    if hs.len() == 0 {
        None
    } else if is_system_header(hs[0]) {
        Some(hs[0])
    } else {
        find_system_header(hs.skip(1))
    }
}

proof fn lemma_find_system_header_at(hs: Seq<NewItemHeader>, i: int)
    requires
        0 <= i < hs.len(),
        is_system_header(hs[i]),
        forall|j: int| 0 <= j < i ==> !is_system_header(hs[j]),
    ensures
        find_system_header(hs) == Some(hs[i]),
    decreases i,
{
    if i > 0 {
        assert(forall|j: int| 0 <= j < i - 1 ==> hs.skip(1)[j] == hs[j + 1]);
        lemma_find_system_header_at(hs.skip(1), i - 1);
    }
}

proof fn lemma_find_system_header_none(hs: Seq<NewItemHeader>)
    requires
        forall|j: int| 0 <= j < hs.len() ==> !is_system_header(hs[j]),
    ensures
        find_system_header(hs) is None,
    decreases hs.len(),
{
    if hs.len() > 0 {
        assert(forall|j: int| 0 <= j < hs.len() - 1 ==> hs.skip(1)[j] == hs[j + 1]);
        lemma_find_system_header_none(hs.skip(1));
    }
}

/// The quoted correlation field name, as raw bytes.
pub open spec fn eei_marker() -> Seq<u8> {
    encode_utf8("\"entityEventId\""@)
}

/// The quoted descriptive field name, as raw bytes.
pub open spec fn desc_marker() -> Seq<u8> {
    encode_utf8("\"eventDesc\""@)
}

/// The correlation field occurs at `k`: the quoted name, optional
/// whitespace, and a colon.
pub open spec fn field_match_at(b: Seq<u8>, k: int) -> bool {
    &&& 0 <= k
    &&& k + eei_marker().len() <= b.len()
    &&& match_at(b, eei_marker(), k)
    &&& ({
        let j = ws_end(b, k + eei_marker().len());
        j < b.len() && b[j] == 58
    })
}

/// The correlation field at `k` carries a decimal value: after the colon,
/// optional whitespace, then at least one digit.
pub open spec fn eei_match_at(b: Seq<u8>, k: int) -> bool {
    &&& field_match_at(b, k)
    &&& ({
        let j = ws_end(b, k + eei_marker().len());
        let j2 = ws_end(b, j + 1);
        j2 < b.len() && is_digit(b[j2])
    })
}

/// The digits the correlation field at `k` carries.
pub open spec fn eei_digits_at(b: Seq<u8>, k: int) -> Seq<u8> {
    let j = ws_end(b, k + eei_marker().len());
    let j2 = ws_end(b, j + 1);
    b.subrange(j2, digit_end(b, j2))
}

/// The first position at or after `i` where the correlation field carries
/// a value.
pub open spec fn first_eei(b: Seq<u8>, i: int) -> Option<int>
    decreases b.len() - i
    when 0 <= i <= b.len()
{
    if i >= b.len() {
        None
    } else if eei_match_at(b, i) {
        Some(i)
    } else {
        first_eei(b, i + 1)
    }
}

/// The entity event id read from the body: the value of the first
/// correlation field occurrence, if it parses as an `i64`.
pub open spec fn entity_event_id_spec(b: Seq<u8>) -> Option<i64> {
    match first_eei(b, 0) {
        Some(k) => parse_i64_spec(eei_digits_at(b, k)),
        None => None,
    }
}

/// The body carries the correlation field at all.
pub open spec fn has_eei_field(b: Seq<u8>) -> bool {
    exists|k: int| field_match_at(b, k)
}

/// The body names the descriptive field.
pub open spec fn has_event_desc(b: Seq<u8>) -> bool {
    exists|k: int| match_at(b, desc_marker(), k)
}

/// The inferred item type: the JSON-native event types when the
/// correlation field is present, otherwise the key of the first streaming
/// rule that fires.
pub open spec fn item_type_spec(rules: Seq<XmlRuleSpec>, b: Seq<u8>) -> Option<Seq<char>> {
    if has_eei_field(b) {
        if has_event_desc(b) {
            Some("event_payload"@)
        } else {
            Some("event_notification"@)
        }
    } else {
        match xml_scan(rules, b, 0, Seq::empty(), None, None).1 {
            Some(t) => if 0 <= t < rules.len() {
                Some(rules[t].key)
            } else {
                None
            },
            None => None,
        }
    }
}

/// The inferred system: the first system header wins; otherwise the text
/// captured for the designated leaf element, decoded leniently.
pub open spec fn system_spec(rules: Seq<XmlRuleSpec>, hs: Seq<NewItemHeader>, b: Seq<u8>)
    -> Option<Seq<char>> {
    match find_system_header(hs) {
        Some(h) => Some(lossy_utf8(h.value@)),
        None => match xml_scan(rules, b, 0, Seq::empty(), None, None).0 {
            Some(t) => Some(lossy_utf8(t)),
            None => None,
        },
    }
}

/// The event id: the decimal value of the dedicated correlation header.
pub open spec fn event_id_spec(hs: Seq<NewItemHeader>) -> Option<i64> {
    match find_new_header(hs, "mgs-event-id"@) {
        Some(h) => parse_i64_spec(h.value@),
        None => None,
    }
}

/// The user agent: the first `user-agent` header, decoded leniently.
pub open spec fn user_agent_spec(hs: Seq<NewItemHeader>) -> Option<Seq<char>> {
    match find_new_header(hs, "user-agent"@) {
        Some(h) => Some(lossy_utf8(h.value@)),
        None => None,
    }
}

/// Everything the classifier derives from one submission.
pub struct Classification {
    pub system: Option<String>,
    pub item_type: Option<String>,
    pub event_id: Option<i64>,
    pub entity_event_id: Option<i64>,
    pub user_agent: Option<String>,
}

/// The spec-level image of a classification.
pub struct ClassificationSpec {
    pub system: Option<Seq<char>>,
    pub item_type: Option<Seq<char>>,
    pub event_id: Option<i64>,
    pub entity_event_id: Option<i64>,
    pub user_agent: Option<Seq<char>>,
}

impl View for Classification {
    type V = ClassificationSpec;

    open spec fn view(&self) -> ClassificationSpec {
        ClassificationSpec {
            system: self.system.deep_view(),
            item_type: self.item_type.deep_view(),
            event_id: self.event_id,
            entity_event_id: self.entity_event_id,
            user_agent: self.user_agent.deep_view(),
        }
    }
}

/// What classification derives, as a function of the rule table, the
/// headers and the body, and of nothing else.
pub open spec fn classification_spec(
    rules: Seq<XmlRuleSpec>,
    hs: Seq<NewItemHeader>,
    b: Seq<u8>,
) -> ClassificationSpec {
    ClassificationSpec {
        system: system_spec(rules, hs, b),
        item_type: item_type_spec(rules, b),
        event_id: event_id_spec(hs),
        entity_event_id: entity_event_id_spec(b),
        user_agent: user_agent_spec(hs),
    }
}

/// Classification reads nothing but its inputs: identical headers and
/// bodies always classify identically, so re-running it is idempotent.
pub proof fn lemma_classification_deterministic(
    rules: Seq<XmlRuleSpec>,
    h1: Seq<NewItemHeader>,
    b1: Seq<u8>,
    h2: Seq<NewItemHeader>,
    b2: Seq<u8>,
)
    requires
        h1 == h2,
        b1 == b2,
    ensures
        classification_spec(rules, h1, b1) == classification_spec(rules, h2, b2),
{
}

fn field_match_exec(b: &[u8], k: usize, marker: &Vec<u8>) -> (r: bool)
    requires
        k <= b@.len(),
        marker@ == eei_marker(),
    ensures
        r == field_match_at(b@, k as int),
{
    let n = b.len();
    if marker.len() > n - k {
        return false;
    }
    if !match_at_exec(b, marker.as_slice(), k) {
        return false;
    }
    let j = ws_end_exec(b, k + marker.len());
    j < n && b[j] == 58
}

fn eei_match_exec(b: &[u8], k: usize, marker: &Vec<u8>) -> (r: bool)
    requires
        k <= b@.len(),
        marker@ == eei_marker(),
    ensures
        r == eei_match_at(b@, k as int),
{
    if !field_match_exec(b, k, marker) {
        return false;
    }
    let n = b.len();
    proof {
        assert(k + marker@.len() <= n);
    }
    let j = ws_end_exec(b, k + marker.len());
    proof {
        assert(j < n);
    }
    let j2 = ws_end_exec(b, j + 1);
    j2 < n && b[j2] >= 48 && b[j2] <= 57
}

proof fn lemma_first_eei_none_from(b: Seq<u8>, i: int)
    requires
        0 <= i <= b.len(),
        forall|k: int| i <= k < b.len() ==> !eei_match_at(b, k),
    ensures
        first_eei(b, i) is None,
    decreases b.len() - i,
{
    if i < b.len() {
        lemma_first_eei_none_from(b, i + 1);
    }
}

fn marker_bytes() -> (r: Vec<u8>)
    ensures
        r@ == eei_marker(),
{
    let s = "\"entityEventId\"";
    let r = s.as_bytes_vec();
    r
}

fn desc_bytes() -> (r: Vec<u8>)
    ensures
        r@ == desc_marker(),
{
    let s = "\"eventDesc\"";
    let r = s.as_bytes_vec();
    r
}

/// Read the entity event id out of a raw body.
pub fn entity_event_id_exec(b: &[u8]) -> (r: Option<i64>)
    ensures
        r == entity_event_id_spec(b@),
{
    let marker = marker_bytes();
    let n = b.len();
    let mut i: usize = 0;
    while i < n
        invariant
            n == b@.len(),
            marker@ == eei_marker(),
            i <= n,
            first_eei(b@, 0) == first_eei(b@, i as int),
        decreases n - i,
    {
        if eei_match_exec(b, i, &marker) {
            proof {
                assert(first_eei(b@, i as int) == Some(i as int));
            }
            let j = ws_end_exec(b, i + marker.len());
            let j2 = ws_end_exec(b, j + 1);
            let de = digit_end_exec(b, j2);
            let digits = crate::xml::copy_range(b, j2, de);
            return parse_i64(digits.as_slice());
        }
        i = i + 1;
    }
    proof {
        lemma_first_eei_none_from(b@, i as int);
    }
    None
}

/// Whether the body carries the correlation field.
pub fn has_eei_field_exec(b: &[u8]) -> (r: bool)
    ensures
        r == has_eei_field(b@),
{
    let marker = marker_bytes();
    let n = b.len();
    let mut i: usize = 0;
    while i < n
        invariant
            n == b@.len(),
            marker@ == eei_marker(),
            i <= n,
            forall|k: int| 0 <= k < i ==> !field_match_at(b@, k),
        decreases n - i,
    {
        if field_match_exec(b, i, &marker) {
            return true;
        }
        i = i + 1;
    }
    proof {
        assert(forall|k: int| field_match_at(b@, k) ==> 0 <= k < n);
    }
    false
}

/// Whether the body names the descriptive field.
pub fn has_event_desc_exec(b: &[u8]) -> (r: bool)
    ensures
        r == has_event_desc(b@),
{
    let marker = desc_bytes();
    let n = b.len();
    if marker.len() == 0 {
        proof {
            assert(match_at(b@, desc_marker(), 0));
        }
        return true;
    }
    let mut i: usize = 0;
    while i < n
        invariant
            n == b@.len(),
            marker@ == desc_marker(),
            marker@.len() > 0,
            i <= n,
            forall|k: int| 0 <= k < i ==> !match_at(b@, desc_marker(), k),
        decreases n - i,
    {
        if marker.len() <= n - i && match_at_exec(b, marker.as_slice(), i) {
            return true;
        }
        proof {
            assert(!match_at(b@, desc_marker(), i as int));
        }
        i = i + 1;
    }
    proof {
        assert(forall|k: int| match_at(b@, desc_marker(), k) ==> 0 <= k < n);
    }
    false
}

/// The classifier: the immutable streaming rule table, built once at
/// start-up and shared from then on.
pub struct Classifier {
    pub xml_rules: Vec<XmlRule>,
}

impl Classifier {
    /// The rule table this classifier applies.
    pub open spec fn rules(&self) -> Seq<XmlRuleSpec> {
        rules_view(self.xml_rules@)
    }

    /// Derive every metadata field for one submission.
    pub fn classify(&self, headers: &[NewItemHeader], body: &[u8]) -> (r: Classification)
        ensures
            r@ == classification_spec(self.rules(), headers@, body@),
    {
        let scan = scan_body(&self.xml_rules, body);
        let system: Option<String> = match find_system_value(headers) {
            Some(s) => Some(s),
            None => match &scan.0 {
                Some(t) => Some(bytes_to_string_lossy(t.as_slice())),
                None => None,
            },
        };
        let item_type: Option<String> = if has_eei_field_exec(body) {
            if has_event_desc_exec(body) {
                Some("event_payload".to_owned())
            } else {
                Some("event_notification".to_owned())
            }
        } else {
            match &scan.1 {
                Some(t) => Some(self.xml_rules[*t].key.as_str().to_owned()),
                None => None,
            }
        };
        let event_id = get_event_id(headers);
        let entity_event_id = entity_event_id_exec(body);
        let user_agent = get_user_agent(headers);
        Classification { system, item_type, event_id, entity_event_id, user_agent }
    }
}

fn find_system_value(headers: &[NewItemHeader]) -> (r: Option<String>)
    ensures
        match r {
            Some(s) => find_system_header(headers@) matches Some(h) && s@ == lossy_utf8(h.value@),
            None => find_system_header(headers@) is None,
        },
{
    let n = headers.len();
    let mut i: usize = 0;
    while i < n
        invariant
            n == headers@.len(),
            i <= n,
            forall|j: int| 0 <= j < i ==> !is_system_header(headers@[j]),
        decreases n - i,
    {
        if str_eq(headers[i].name.as_str(), "mgs-system-id") || str_eq(
            headers[i].name.as_str(),
            "mgssystem",
        ) {
            proof {
                lemma_find_system_header_at(headers@, i as int);
            }
            return Some(bytes_to_string_lossy(headers[i].value.as_slice()));
        }
        i = i + 1;
    }
    proof {
        lemma_find_system_header_none(headers@);
    }
    None
}

/// The event id carried by the dedicated correlation header, if any.
pub fn get_event_id(headers: &[NewItemHeader]) -> (r: Option<i64>)
    ensures
        r == event_id_spec(headers@),
{
    let n = headers.len();
    let mut i: usize = 0;
    while i < n
        invariant
            n == headers@.len(),
            i <= n,
            forall|j: int| 0 <= j < i ==> headers@[j].name@ != "mgs-event-id"@,
        decreases n - i,
    {
        if str_eq(headers[i].name.as_str(), "mgs-event-id") {
            proof {
                lemma_find_new_header_at(headers@, "mgs-event-id"@, i as int);
            }
            return parse_i64(headers[i].value.as_slice());
        }
        i = i + 1;
    }
    proof {
        lemma_find_new_header_none(headers@, "mgs-event-id"@);
    }
    None
}

/// The first `user-agent` header's value, if any.
pub fn get_user_agent(headers: &[NewItemHeader]) -> (r: Option<String>)
    ensures
        r.deep_view() == user_agent_spec(headers@),
{
    let n = headers.len();
    let mut i: usize = 0;
    while i < n
        invariant
            n == headers@.len(),
            i <= n,
            forall|j: int| 0 <= j < i ==> headers@[j].name@ != "user-agent"@,
        decreases n - i,
    {
        if str_eq(headers[i].name.as_str(), "user-agent") {
            proof {
                lemma_find_new_header_at(headers@, "user-agent"@, i as int);
            }
            return Some(bytes_to_string_lossy(headers[i].value.as_slice()));
        }
        i = i + 1;
    }
    proof {
        lemma_find_new_header_none(headers@, "user-agent"@);
    }
    None
}

} // verus!
