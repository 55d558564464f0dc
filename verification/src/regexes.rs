//! The regular-expression predicate used by `regex:` search terms. The
//! regex crate does the compiling and matching; this module names what it
//! computes and keeps a compiled pattern together with its text, so that a
//! search compiles each distinct pattern once and not once per candidate
//! row.

use vstd::prelude::*;
use crate::text::str_eq;

verus! {

/// Whether the regex crate accepts the pattern text as a valid pattern.
pub uninterp spec fn regex_valid(pattern: Seq<char>) -> bool;

/// Whether the pattern matches somewhere in the haystack bytes, as
/// `regex::bytes::Regex::is_match` decides it: a function of the pattern
/// text and the haystack alone.
pub uninterp spec fn regex_match(pattern: Seq<char>, hay: Seq<u8>) -> bool;

#[verifier::external_type_specification]
#[verifier::external_body]
pub struct ExRegex(regex::bytes::Regex);

/// A compiled pattern paired with the text it was compiled from. Values
/// exist only through `regex_compile`, which keeps the two in step.
pub struct CompiledRegex {
    pattern: String,
    inner: regex::bytes::Regex,
}

impl CompiledRegex {
    /// The text this pattern was compiled from.
    pub closed spec fn pat(&self) -> Seq<char> {
        self.pattern@
    }

    /// A compiled pattern always came from a valid pattern text.
    pub closed spec fn wf(&self) -> bool {
        regex_valid(self.pattern@)
    }
}

/// Relies on `regex::bytes::Regex::new`: compilation succeeds exactly on
/// the patterns the regex crate accepts, and depends on the pattern text
/// alone.
#[verifier::external_body]
pub fn regex_compile(pattern: &str) -> (r: Option<CompiledRegex>)
    ensures
        r is Some <==> regex_valid(pattern@),
        r matches Some(c) ==> c.pat() == pattern@ && c.wf(),
{
    match regex::bytes::Regex::new(pattern) {
        Ok(inner) => Some(CompiledRegex { pattern: pattern.to_string(), inner }),
        Err(_) => None,
    }
}

/// Relies on `regex::bytes::Regex::is_match`: whether the compiled pattern
/// matches anywhere in the haystack, a function of pattern text and
/// haystack bytes alone.
#[verifier::external_body]
pub fn regex_is_match(re: &CompiledRegex, hay: &[u8]) -> (r: bool)
    ensures
        r == regex_match(re.pat(), hay@),
{
    re.inner.is_match(hay)
}

/// A memo of compiled patterns keyed by pattern text: each pattern is
/// compiled at most once however often it is asked for.
pub struct RegexCache {
    entries: Vec<CompiledRegex>,
}

impl RegexCache {
    pub closed spec fn wf(&self) -> bool {
        forall|i: int| 0 <= i < self.entries@.len() ==> (#[trigger] self.entries@[i]).wf()
    }

    /// An empty cache.
    pub fn new() -> (r: RegexCache)
        ensures
            r.wf(),
    {
        RegexCache { entries: Vec::new() }
    }

    /// Match `pattern` against `hay`, compiling the pattern only if this
    /// cache has not seen its text before. Nothing is returned exactly when
    /// the pattern is invalid.
    pub fn is_match(&mut self, pattern: &str, hay: &[u8]) -> (r: Option<bool>)
        requires
            old(self).wf(),
        ensures
            final(self).wf(),
            r is Some <==> regex_valid(pattern@),
            r matches Some(b) ==> b == regex_match(pattern@, hay@),
    {
        let n = self.entries.len();
        let mut i: usize = 0;
        while i < n
            invariant
                n == self.entries@.len(),
                i <= n,
                *old(self) == *self,
                self.wf(),
            decreases n - i,
        {
            if str_eq(self.entries[i].pattern.as_str(), pattern) {
                let b = regex_is_match(&self.entries[i], hay);
                return Some(b);
            }
            i = i + 1;
        }
        match regex_compile(pattern) {
            Some(c) => {
                let b = regex_is_match(&c, hay);
                self.entries.push(c);
                proof {
                    assert(forall|k: int|
                        0 <= k < self.entries@.len() ==> (#[trigger] self.entries@[k]).wf());
                }
                Some(b)
            },
            None => None,
        }
    }
}

} // verus!
