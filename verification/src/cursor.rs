//! Character-level scanning primitives over an input viewed as a sequence of
//! characters: the quote-context automaton, quote-aware and quote-blind
//! searches, and small string helpers shared by the validators and the lexer.
use vstd::prelude::*;

verus! {

/// Quote context at a scan position: whether the scan is inside an
/// unterminated double or single quote, and whether the previous character
/// was a backslash (which suppresses the quote meaning of the next
/// character).
#[derive(Clone, Copy, PartialEq, Eq, Structural)]
pub struct QuoteState {
    pub escaped: bool,
    pub in_double: bool,
    pub in_single: bool,
}

pub open spec fn quote_state_init() -> QuoteState {
    QuoteState { escaped: false, in_double: false, in_single: false }
}

/// One step of the quote-context automaton. A backslash suppresses the
/// quote meaning of the character right after it; this escape handling
/// belongs to the scanner's quote context alone -- the quote-balance
/// validator deliberately gives backslashes no meaning.
pub open spec fn quote_step(st: QuoteState, c: char) -> QuoteState {
    if st.escaped {
        QuoteState { escaped: false, in_double: st.in_double, in_single: st.in_single }
    } else if c == '\\' {
        QuoteState { escaped: true, in_double: st.in_double, in_single: st.in_single }
    } else if c == '"' {
        QuoteState { escaped: false, in_double: !st.in_double, in_single: st.in_single }
    } else if c == '\'' {
        QuoteState { escaped: false, in_double: st.in_double, in_single: !st.in_single }
    } else {
        QuoteState { escaped: false, in_double: st.in_double, in_single: st.in_single }
    }
}

/// Quote context after processing the first `n` characters of `s`.
pub open spec fn quote_state_at(s: Seq<char>, n: int) -> QuoteState
    decreases n,
{
    if n <= 0 {
        quote_state_init()
    } else {
        quote_step(quote_state_at(s, n - 1), s[n - 1])
    }
}

/// Whether position `p` of `s` lies inside an open quote. The character at
/// `p` itself takes part: an opening quote is already inside, its closing
/// partner is already outside.
pub open spec fn in_quote_at(s: Seq<char>, p: int) -> bool {
    let st = quote_state_at(s, p + 1);
    st.in_double || st.in_single
}

pub fn exec_quote_step(st: QuoteState, c: char) -> (r: QuoteState)
    ensures
        r == quote_step(st, c),
{
    if st.escaped {
        QuoteState { escaped: false, in_double: st.in_double, in_single: st.in_single }
    } else if c == '\\' {
        QuoteState { escaped: true, in_double: st.in_double, in_single: st.in_single }
    } else if c == '"' {
        QuoteState { escaped: false, in_double: !st.in_double, in_single: st.in_single }
    } else if c == '\'' {
        QuoteState { escaped: false, in_double: st.in_double, in_single: !st.in_single }
    } else {
        QuoteState { escaped: false, in_double: st.in_double, in_single: st.in_single }
    }
}

/// Quote context after the first `n` characters of `cs`.
pub fn exec_quote_state_at(cs: &Vec<char>, n: usize) -> (r: QuoteState)
    requires
        n <= cs@.len(),
    ensures
        r == quote_state_at(cs@, n as int),
{
    let mut st = QuoteState { escaped: false, in_double: false, in_single: false };
    let mut i: usize = 0;
    while i < n
        invariant
            i <= n <= cs@.len(),
            st == quote_state_at(cs@, i as int),
        decreases n - i,
    {
        st = exec_quote_step(st, cs[i]);
        i = i + 1;
    }
    st
}

/// Index of the first occurrence of `target` at or after `from` that is not
/// inside a quote; the length of `s` when there is none.
pub open spec fn find_unquoted(s: Seq<char>, from: int, target: char) -> int
    decreases s.len() - from,
{
    if from < 0 || from >= s.len() {
        s.len() as int
    } else if s[from] == target && !in_quote_at(s, from) {
        from
    } else {
        find_unquoted(s, from + 1, target)
    }
}

pub proof fn lemma_find_unquoted_bounds(s: Seq<char>, from: int, target: char)
    requires
        0 <= from <= s.len(),
    ensures
        from <= find_unquoted(s, from, target) <= s.len(),
        find_unquoted(s, from, target) < s.len() ==> {
            let p = find_unquoted(s, from, target);
            s[p] == target && !in_quote_at(s, p)
        },
    decreases s.len() - from,
{
    if from < s.len() && !(s[from] == target && !in_quote_at(s, from)) {
        lemma_find_unquoted_bounds(s, from + 1, target);
    }
}

pub fn scan_unquoted(cs: &Vec<char>, from: usize, target: char) -> (r: usize)
    requires
        from <= cs@.len(),
    ensures
        r == find_unquoted(cs@, from as int, target),
        from <= r <= cs@.len(),
    decreases cs@.len() - from,
{
    proof {
        lemma_find_unquoted_bounds(cs@, from as int, target);
    }
    let mut st = exec_quote_state_at(cs, from);
    let mut i: usize = from;
    loop
        invariant
            from <= i <= cs@.len(),
            st == quote_state_at(cs@, i as int),
            find_unquoted(cs@, from as int, target) == find_unquoted(cs@, i as int, target),
        decreases cs@.len() - i,
    {
        if i == cs.len() {
            return i;
        }
        let c = cs[i];
        let st2 = exec_quote_step(st, c);
        if c == target && !(st2.in_double || st2.in_single) {
            return i;
        }
        st = st2;
        i = i + 1;
    }
}

/// Index of the first occurrence of `target` at or after `from`, quote
/// context ignored; the length of `s` when there is none.
pub open spec fn find_char(s: Seq<char>, from: int, target: char) -> int
    decreases s.len() - from,
{
    if from < 0 || from >= s.len() {
        s.len() as int
    } else if s[from] == target {
        from
    } else {
        find_char(s, from + 1, target)
    }
}

pub proof fn lemma_find_char_bounds(s: Seq<char>, from: int, target: char)
    requires
        0 <= from <= s.len(),
    ensures
        from <= find_char(s, from, target) <= s.len(),
        find_char(s, from, target) < s.len() ==> s[find_char(s, from, target)] == target,
    decreases s.len() - from,
{
    if from < s.len() && s[from] != target {
        lemma_find_char_bounds(s, from + 1, target);
    }
}

pub fn scan_char(cs: &Vec<char>, from: usize, target: char) -> (r: usize)
    requires
        from <= cs@.len(),
    ensures
        r == find_char(cs@, from as int, target),
        from <= r <= cs@.len(),
{
    proof {
        lemma_find_char_bounds(cs@, from as int, target);
    }
    let mut i: usize = from;
    loop
        invariant
            from <= i <= cs@.len(),
            find_char(cs@, from as int, target) == find_char(cs@, i as int, target),
        decreases cs@.len() - i,
    {
        if i == cs.len() {
            return i;
        }
        if cs[i] == target {
            return i;
        }
        i = i + 1;
    }
}

/// `s` with every occurrence of the character `x` removed.
pub open spec fn strip_char(s: Seq<char>, x: char) -> Seq<char>
    decreases s.len(),
{
    if s.len() == 0 {
        Seq::empty()
    } else if s.last() == x {
        strip_char(s.drop_last(), x)
    } else {
        strip_char(s.drop_last(), x).push(s.last())
    }
}

pub fn exec_strip_char(cs: &Vec<char>, x: char) -> (r: Vec<char>)
    ensures
        r@ == strip_char(cs@, x),
{
    let mut out: Vec<char> = Vec::new();
    let mut i: usize = 0;
    while i < cs.len()
        invariant
            i <= cs@.len(),
            out@ == strip_char(cs@.subrange(0, i as int), x),
        decreases cs@.len() - i,
    {
        let c = cs[i];
        proof {
            assert(cs@.subrange(0, i + 1).drop_last() =~= cs@.subrange(0, i as int));
            assert(cs@.subrange(0, i + 1).last() == cs@[i as int]);
        }
        if c != x {
            out.push(c);
        }
        i = i + 1;
    }
    proof {
        assert(cs@.subrange(0, cs@.len() as int) =~= cs@);
    }
    out
}

/// The input string as a vector of its characters.
pub fn str_to_chars(s: &str) -> (v: Vec<char>)
    ensures
        v@ == s@,
{
    let n = s.unicode_len();
    let mut v: Vec<char> = Vec::new();
    let mut i: usize = 0;
    while i < n
        invariant
            i <= n == s@.len(),
            v@ == s@.subrange(0, i as int),
        decreases n - i,
    {
        v.push(s.get_char(i));
        proof {
            assert(v@ =~= s@.subrange(0, i + 1));
        }
        i = i + 1;
    }
    proof {
        assert(v@ =~= s@);
    }
    v
}

/// Relies on std's `String::push`: appends the given character to the end of
/// the string.
#[verifier::external_body]
fn push_char(s: &mut String, c: char)
    ensures
        final(s)@ == old(s)@.push(c),
{
    s.push(c)
}

/// A freshly built string holding exactly the characters of `cs`.
pub fn chars_to_string(cs: &Vec<char>) -> (r: String)
    ensures
        r@ == cs@,
{
    let mut r = String::new();
    let mut i: usize = 0;
    while i < cs.len()
        invariant
            i <= cs@.len(),
            r@ == cs@.subrange(0, i as int),
        decreases cs@.len() - i,
    {
        push_char(&mut r, cs[i]);
        proof {
            assert(r@ =~= cs@.subrange(0, i + 1));
        }
        i = i + 1;
    }
    proof {
        assert(r@ =~= cs@);
    }
    r
}

/// The characters of `cs` at positions `from..to`, as a fresh vector.
pub fn vec_subrange(cs: &Vec<char>, from: usize, to: usize) -> (r: Vec<char>)
    requires
        from <= to <= cs@.len(),
    ensures
        r@ == cs@.subrange(from as int, to as int),
{
    let mut r: Vec<char> = Vec::new();
    let mut i: usize = from;
    while i < to
        invariant
            from <= i <= to <= cs@.len(),
            r@ == cs@.subrange(from as int, i as int),
        decreases to - i,
    {
        r.push(cs[i]);
        proof {
            assert(r@ =~= cs@.subrange(from as int, i + 1));
        }
        i = i + 1;
    }
    r
}

/// The substring of `src` covering character positions `from..to`, as an
/// owned string.
pub fn extract(src: &str, from: usize, to: usize) -> (r: String)
    requires
        from <= to <= src@.len(),
    ensures
        r@ == src@.subrange(from as int, to as int),
{
    String::from_str(src.substring_char(from, to))
}

} // verus!
