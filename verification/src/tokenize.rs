//! The query tokenizer: splits a raw search string into ordered terms,
//! honouring quoting. Whitespace outside quotes separates terms; a double
//! quote opens quoted mode; inside quoted mode a run of adjacent quotes
//! stands for one literal quote (an even run stays quoted, an odd run also
//! closes the term) and a single quote closes the term; an unterminated
//! quote swallows the rest of the input as the current term; adjacent quoted
//! and unquoted segments give separate terms.

use vstd::prelude::*;
use crate::text::{chars_to_string, is_space, is_space_char, str_to_chars};

verus! {

/// Where the scan stands: between terms, inside an unquoted term, or inside
/// a quoted term.
pub enum Mode {
    Between,
    Unquoted,
    Quoted,
}

/// The length of the run of consecutive quote characters starting at `i`.
pub open spec fn quote_run(q: Seq<char>, i: int) -> int
    decreases q.len() - i when 0 <= i <= q.len()
{
    if i >= q.len() {
        0
    } else if q[i] != '"' {
        0
    } else {
        1 + quote_run(q, i + 1)
    }
}

/// The tokens of `q` from position `i` on, given the mode, the term built
/// so far and the terms already emitted.
pub open spec fn toks(q: Seq<char>, i: int, mode: Mode, cur: Seq<char>, acc: Seq<Seq<char>>)
    -> Seq<Seq<char>>
    decreases q.len() - i
    when 0 <= i <= q.len()
    via toks_decreases
{
    if i >= q.len() {
        match mode {
            Mode::Between => acc,
            _ => acc.push(cur),
        }
    } else {
        let c = q[i];
        match mode {
            Mode::Between => {
                if is_space_char(c) {
                    toks(q, i + 1, Mode::Between, Seq::empty(), acc)
                } else if c == '"' {
                    toks(q, i + 1, Mode::Quoted, Seq::empty(), acc)
                } else {
                    toks(q, i + 1, Mode::Unquoted, Seq::empty().push(c), acc)
                }
            },
            Mode::Unquoted => {
                if is_space_char(c) {
                    toks(q, i + 1, Mode::Between, Seq::empty(), acc.push(cur))
                } else if c == '"' {
                    toks(q, i + 1, Mode::Quoted, Seq::empty(), acc.push(cur))
                } else {
                    toks(q, i + 1, Mode::Unquoted, cur.push(c), acc)
                }
            },
            Mode::Quoted => {
                if c == '"' {
                    let n = quote_run(q, i);
                    if n == 1 {
                        toks(q, i + 1, Mode::Between, Seq::empty(), acc.push(cur))
                    } else if n % 2 == 0 {
                        toks(q, i + n, Mode::Quoted, cur.push('"'), acc)
                    } else {
                        toks(q, i + n, Mode::Between, Seq::empty(), acc.push(cur.push('"')))
                    }
                } else {
                    toks(q, i + 1, Mode::Quoted, cur.push(c), acc)
                }
            },
        }
    }
}

#[via_fn]
proof fn toks_decreases(q: Seq<char>, i: int, mode: Mode, cur: Seq<char>, acc: Seq<Seq<char>>) {
    if 0 <= i <= q.len() {
        lemma_quote_run_bounds(q, i);
    }
}

/// The ordered terms of a raw query string.
pub open spec fn tokenize_spec(q: Seq<char>) -> Seq<Seq<char>> {
    toks(q, 0, Mode::Between, Seq::empty(), Seq::empty())
}

proof fn lemma_quote_run_bounds(q: Seq<char>, i: int)
    requires
        0 <= i <= q.len(),
    ensures
        0 <= quote_run(q, i) <= q.len() - i,
        i < q.len() && q[i] == '"' ==> quote_run(q, i) >= 1,
    decreases q.len() - i,
{
    if i < q.len() && q[i] == '"' {
        lemma_quote_run_bounds(q, i + 1);
    }
}

fn count_quotes(cs: &Vec<char>, i: usize) -> (r: usize)
    requires
        i <= cs@.len(),
    ensures
        r == quote_run(cs@, i as int),
        i + r <= cs@.len(),
    decreases cs@.len() - i,
{
    let n = cs.len();
    let mut j: usize = i;
    while j < n && cs[j] == '"'
        invariant
            n == cs@.len(),
            i <= j <= n,
            quote_run(cs@, i as int) == j - i + quote_run(cs@, j as int),
        decreases n - j,
    {
        j = j + 1;
    }
    proof {
        assert(quote_run(cs@, j as int) == 0);
    }
    j - i
}

/// Split a raw query string into its ordered terms.
pub fn tokenize_query(query: &str) -> (r: Vec<String>)
    ensures
        r.deep_view() == tokenize_spec(query@),
{
    let cs = str_to_chars(query);
    let n = cs.len();
    let ghost q = query@;
    let mut acc: Vec<String> = Vec::new();
    let mut cur: Vec<char> = Vec::new();
    let mut mode = Mode::Between;
    let mut i: usize = 0;
    proof {
        assert(acc.deep_view() =~= Seq::<Seq<char>>::empty());
    }
    while i < n
        invariant
            n == q.len(),
            cs@ == q,
            i <= n,
            mode is Between ==> cur@ == Seq::<char>::empty(),
            tokenize_spec(q) == toks(q, i as int, mode, cur@, acc.deep_view()),
        decreases n - i,
    {
        let ghost i0 = i as int;
        let ghost m0 = mode;
        let ghost c0 = cur@;
        let ghost a0 = acc.deep_view();
        let c = cs[i];
        match mode {
            Mode::Between => {
                if is_space(c) {
                    i = i + 1;
                } else if c == '"' {
                    mode = Mode::Quoted;
                    i = i + 1;
                } else {
                    cur.push(c);
                    mode = Mode::Unquoted;
                    i = i + 1;
                    proof {
                        assert(cur@ =~= Seq::<char>::empty().push(c));
                    }
                }
            },
            Mode::Unquoted => {
                if is_space(c) {
                    acc.push(chars_to_string(&cur));
                    cur = Vec::new();
                    mode = Mode::Between;
                    i = i + 1;
                    proof {
                        assert(acc.deep_view() =~= a0.push(c0));
                    }
                } else if c == '"' {
                    acc.push(chars_to_string(&cur));
                    cur = Vec::new();
                    mode = Mode::Quoted;
                    i = i + 1;
                    proof {
                        assert(acc.deep_view() =~= a0.push(c0));
                    }
                } else {
                    cur.push(c);
                    i = i + 1;
                }
            },
            Mode::Quoted => {
                if c == '"' {
                    let run = count_quotes(&cs, i);
                    proof {
                        lemma_quote_run_bounds(q, i0);
                    }
                    if run == 1 {
                        acc.push(chars_to_string(&cur));
                        cur = Vec::new();
                        mode = Mode::Between;
                        i = i + 1;
                        proof {
                            assert(acc.deep_view() =~= a0.push(c0));
                        }
                    } else if run % 2 == 0 {
                        cur.push('"');
                        i = i + run;
                        proof {
                            assert(cur@ =~= c0.push('"'));
                        }
                    } else {
                        cur.push('"');
                        acc.push(chars_to_string(&cur));
                        cur = Vec::new();
                        mode = Mode::Between;
                        i = i + run;
                        proof {
                            assert(acc.deep_view() =~= a0.push(c0.push('"')));
                        }
                    }
                } else {
                    cur.push(c);
                    i = i + 1;
                }
            },
        }
        proof {
            assert(toks(q, i0, m0, c0, a0) == toks(q, i as int, mode, cur@, acc.deep_view()));
        }
    }
    let r = match mode {
        Mode::Between => {
            acc
        },
        _ => {
            acc.push(chars_to_string(&cur));
            acc
        },
    };
    proof {
        assert(r.deep_view() =~= tokenize_spec(q));
    }
    r
}

} // verus!
