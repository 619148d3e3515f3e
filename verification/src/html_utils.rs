//! Structural checks on a candidate tag substring, and extraction of its
//! lowercased name. Both validators and the name extraction run on the tag
//! text alone, before the tag is trusted by the lexer.
use vstd::prelude::*;

use crate::cursor::{exec_quote_step, in_quote_at, quote_state_at};
use crate::error::{ErrorModel, HtmlError};

verus! {

/// How many of the first `n` characters of `s` are a `/` outside quotes.
pub open spec fn unquoted_slashes_upto(s: Seq<char>, n: int) -> int
    decreases n,
{
    if n <= 0 {
        0
    } else {
        unquoted_slashes_upto(s, n - 1) + if s[n - 1] == '/' && !in_quote_at(s, n - 1) {
            1int
        } else {
            0int
        }
    }
}

/// The slash-count check: at most one structural `/` may occur anywhere
/// in a tag.
pub open spec fn slash_count_ok(s: Seq<char>) -> bool {
    unquoted_slashes_upto(s, s.len() as int) <= 1
}

proof fn lemma_unquoted_slashes_nonneg(s: Seq<char>, n: int)
    ensures
        unquoted_slashes_upto(s, n) >= 0,
        unquoted_slashes_upto(s, n) <= (if n >= 0 { n } else { 0 }),
    decreases n,
{
    if n > 0 {
        lemma_unquoted_slashes_nonneg(s, n - 1);
    }
}

/// Checks that the candidate tag has at most one `/` outside quotes; a
/// close tag's leading slash or a self-closing tag's trailing slash is the
/// one structural slash allowed.
pub fn validate_token_html_backslash_count(tag_str: &str) -> (r: Result<(), HtmlError>)
    ensures
        r is Ok <==> slash_count_ok(tag_str@),
        r is Err ==> r->Err_0@ == (ErrorModel::MalformedTagSlashCount { tag: tag_str@ }),
{
    let cs = crate::cursor::str_to_chars(tag_str);
    let n = cs.len();
    let mut count: usize = 0;
    let mut st = crate::cursor::QuoteState { escaped: false, in_double: false, in_single: false };
    let mut i: usize = 0;
    while i < n
        invariant
            n == cs@.len(),
            cs@ == tag_str@,
            i <= n,
            st == quote_state_at(cs@, i as int),
            count == unquoted_slashes_upto(cs@, i as int),
            count <= i,
        decreases n - i,
    {
        proof {
            lemma_unquoted_slashes_nonneg(cs@, i as int);
        }
        let c = cs[i];
        let st2 = exec_quote_step(st, c);
        if c == '/' && !(st2.in_double || st2.in_single) {
            count = count + 1;
        }
        st = st2;
        i = i + 1;
    }
    if count > 1 {
        Err(HtmlError::MalformedTagSlashCount { tag: String::from_str(tag_str) })
    } else {
        Ok(())
    }
}

/// Index of the next occurrence of the quote character `q` at or after
/// `from`; the final index of `s` when the search runs off the end, where
/// a scan that never passes the last character stops.
pub open spec fn next_quote_pos(s: Seq<char>, from: int, q: char) -> int
    decreases s.len() - from,
{
    if from >= s.len() - 1 {
        s.len() - 1
    } else if s[from] == q {
        from
    } else {
        next_quote_pos(s, from + 1, q)
    }
}

proof fn lemma_next_quote_pos_bounds(s: Seq<char>, from: int, q: char)
    requires
        0 <= from <= s.len() - 1,
    ensures
        from <= next_quote_pos(s, from, q) <= s.len() - 1,
    decreases s.len() - from,
{
    if from < s.len() - 1 && s[from] != q {
        lemma_next_quote_pos_bounds(s, from + 1, q);
    }
}

/// The maximal quoted runs of `s`, scanned from position `i`: each run
/// starts at a quote character and extends through the next occurrence of
/// the same character, or through the final character when none follows.
/// A run never starts at the final position.
pub open spec fn quote_runs(s: Seq<char>, i: int) -> Seq<Seq<char>>
    decreases s.len() - i,
    via quote_runs_decreases
{
    if i < 0 || i >= s.len() - 1 {
        Seq::empty()
    } else if s[i] == '\'' || s[i] == '"' {
        let q = next_quote_pos(s, i + 1, s[i]);
        seq![s.subrange(i, q + 1)] + quote_runs(s, q + 1)
    } else {
        quote_runs(s, i + 1)
    }
}

#[via_fn]
proof fn quote_runs_decreases(s: Seq<char>, i: int) {
    if 0 <= i && i < s.len() - 1 && (s[i] == '\'' || s[i] == '"') {
        lemma_next_quote_pos_bounds(s, i + 1, s[i]);
    }
}

proof fn lemma_quote_runs_wf_at(s: Seq<char>, i: int, k: int)
    requires
        0 <= k < quote_runs(s, i).len(),
    ensures
        quote_runs(s, i)[k].len() >= 2,
    decreases s.len() - i,
{
    if i < 0 || i >= s.len() - 1 {
    } else if s[i] == '\'' || s[i] == '"' {
        let q = next_quote_pos(s, i + 1, s[i]);
        lemma_next_quote_pos_bounds(s, i + 1, s[i]);
        assert(quote_runs(s, i) == seq![s.subrange(i, q + 1)] + quote_runs(s, q + 1));
        if k == 0 {
            assert(quote_runs(s, i)[0] == s.subrange(i, q + 1));
        } else {
            assert(quote_runs(s, i)[k] == quote_runs(s, q + 1)[k - 1]);
            lemma_quote_runs_wf_at(s, q + 1, k - 1);
        }
    } else {
        lemma_quote_runs_wf_at(s, i + 1, k);
    }
}

/// Every collected run spans at least its opening quote and one more
/// character.
pub proof fn lemma_quote_runs_wf(s: Seq<char>, i: int)
    ensures
        forall|k: int|
            0 <= k < quote_runs(s, i).len() ==> #[trigger] quote_runs(s, i)[k].len() >= 2,
{
    assert forall|k: int|
        0 <= k < quote_runs(s, i).len() implies #[trigger] quote_runs(s, i)[k].len() >= 2 by {
        lemma_quote_runs_wf_at(s, i, k);
    }
}

/// The views of a vector of character vectors, element by element.
proof fn lemma_deep_view_chars(rv: Vec<Vec<char>>)
    ensures
        rv.deep_view().len() == rv@.len(),
        forall|k: int| 0 <= k < rv@.len() ==> rv.deep_view()[k] == rv@[k]@,
{
    assert forall|k: int| 0 <= k < rv@.len() implies rv.deep_view()[k] == rv@[k]@ by {
        assert(rv@[k].deep_view() =~= rv@[k]@);
    }
}

/// How many runs equal the two-character pattern `pat`.
pub open spec fn count_runs_eq(rs: Seq<Seq<char>>, pat: Seq<char>) -> int
    decreases rs.len(),
{
    if rs.len() == 0 {
        0
    } else {
        count_runs_eq(rs.drop_last(), pat) + if rs.last() == pat {
            1int
        } else {
            0int
        }
    }
}

/// More than one empty single-quoted pair, or more than one empty
/// double-quoted pair, among the runs.
pub open spec fn pair_violation(rs: Seq<Seq<char>>) -> bool {
    count_runs_eq(rs, seq!['\'', '\'']) > 1 || count_runs_eq(rs, seq!['"', '"']) > 1
}

/// Every run opens and closes with the same quote character.
pub open spec fn runs_balanced(rs: Seq<Seq<char>>) -> bool {
    forall|k: int| 0 <= k < rs.len() ==> (#[trigger] rs[k]).len() >= 2 && rs[k][0] == rs[k][
        rs[k].len() - 1
    ]
}

/// `s` with every occurrence of `pat` removed, scanning left to right over
/// non-overlapping matches.
pub open spec fn remove_pat(s: Seq<char>, pat: Seq<char>) -> Seq<char>
    decreases s.len(),
{
    if pat.len() == 0 {
        s
    } else if s.len() < pat.len() {
        s
    } else if s.subrange(0, pat.len() as int) == pat {
        remove_pat(s.skip(pat.len() as int), pat)
    } else {
        seq![s[0]] + remove_pat(s.skip(1), pat)
    }
}

/// `s` after removing each collected run in order, every occurrence each
/// time.
pub open spec fn remove_runs(s: Seq<char>, rs: Seq<Seq<char>>) -> Seq<char>
    decreases rs.len(),
{
    if rs.len() == 0 {
        s
    } else {
        remove_runs(remove_pat(s, rs[0]), rs.subrange(1, rs.len() as int))
    }
}

/// Whether any quote character is left in `s`.
pub open spec fn has_quote(s: Seq<char>) -> bool {
    exists|k: int| 0 <= k < s.len() && (s[k] == '\'' || s[k] == '"')
}

/// The quote-balance check: no repeated empty quote pair, every run closed
/// by its own quote character, and no stray quote outside the runs.
pub open spec fn quotes_ok(s: Seq<char>) -> bool {
    let rs = quote_runs(s, 0);
    !pair_violation(rs) && runs_balanced(rs) && !has_quote(remove_runs(s, rs))
}

fn scan_quote(cs: &Vec<char>, from: usize, q: char) -> (r: usize)
    requires
        from <= cs@.len() - 1,
    ensures
        r == next_quote_pos(cs@, from as int, q),
        from <= r <= cs@.len() - 1,
{
    proof {
        lemma_next_quote_pos_bounds(cs@, from as int, q);
    }
    let mut i: usize = from;
    loop
        invariant
            from <= i <= cs@.len() - 1,
            next_quote_pos(cs@, from as int, q) == next_quote_pos(cs@, i as int, q),
        decreases cs@.len() - 1 - i,
    {
        if i == cs.len() - 1 {
            return i;
        }
        if cs[i] == q {
            return i;
        }
        i = i + 1;
    }
}

/// Whether `pat` occurs in `s` starting at position `at`.
fn match_at(s: &Vec<char>, pat: &Vec<char>, at: usize) -> (b: bool)
    requires
        at + pat@.len() <= s@.len(),
    ensures
        b == (s@.subrange(at as int, at + pat@.len()) == pat@),
{
    let n = s.len();
    let mut j: usize = 0;
    while j < pat.len()
        invariant
            j <= pat@.len(),
            at + pat@.len() <= s@.len(),
            s@.len() == n,
            forall|k: int| 0 <= k < j ==> s@[at + k] == pat@[k],
        decreases pat@.len() - j,
    {
        if s[at + j] != pat[j] {
            proof {
                assert(s@.subrange(at as int, at + pat@.len())[j as int] != pat@[j as int]);
            }
            return false;
        }
        j = j + 1;
    }
    proof {
        assert(s@.subrange(at as int, at + pat@.len()) =~= pat@);
    }
    true
}

fn exec_remove_pat(s: &Vec<char>, pat: &Vec<char>) -> (r: Vec<char>)
    ensures
        r@ == remove_pat(s@, pat@),
{
    if pat.len() == 0 {
        let r = crate::cursor::vec_subrange(s, 0, s.len());
        proof {
            assert(s@.subrange(0, s@.len() as int) =~= s@);
        }
        return r;
    }
    let mut out: Vec<char> = Vec::new();
    let mut i: usize = 0;
    proof {
        assert(s@.skip(0) =~= s@);
        assert(Seq::<char>::empty() + remove_pat(s@, pat@) =~= remove_pat(s@, pat@));
    }
    while i < s.len()
        invariant
            i <= s@.len(),
            pat@.len() >= 1,
            remove_pat(s@, pat@) == out@ + remove_pat(s@.skip(i as int), pat@),
        decreases s@.len() - i,
    {
        if pat.len() <= s.len() - i && match_at(s, pat, i) {
            proof {
                assert(s@.skip(i as int).subrange(0, pat@.len() as int) =~= s@.subrange(
                    i as int,
                    i + pat@.len(),
                ));
                assert(s@.skip(i as int).skip(pat@.len() as int) =~= s@.skip(i + pat@.len()));
            }
            i = i + pat.len();
        } else {
            proof {
                if i + pat@.len() <= s@.len() {
                    assert(s@.skip(i as int).subrange(0, pat@.len() as int) =~= s@.subrange(
                        i as int,
                        i + pat@.len(),
                    ));
                }
                assert(s@.skip(i as int).skip(1) =~= s@.skip(i + 1));
                assert(out@ + seq![s@[i as int]] + remove_pat(s@.skip(i + 1), pat@) == out@
                    + remove_pat(s@.skip(i as int), pat@));
            }
            out.push(s[i]);
            i = i + 1;
        }
    }
    proof {
        assert(s@.skip(s@.len() as int) =~= Seq::<char>::empty());
        assert(out@ + Seq::<char>::empty() =~= out@);
    }
    out
}

/// Collects the maximal quoted runs of `cs`.
fn collect_runs(cs: &Vec<char>) -> (rv: Vec<Vec<char>>)
    ensures
        rv.deep_view() == quote_runs(cs@, 0),
{
    let n = cs.len();
    let mut rv: Vec<Vec<char>> = Vec::new();
    let mut i: usize = 0;
    loop
        invariant
            n == cs@.len(),
            i <= n,
            quote_runs(cs@, 0) == rv.deep_view() + quote_runs(cs@, i as int),
        decreases cs@.len() - i,
    {
        if n - i <= 1 {
            proof {
                assert(quote_runs(cs@, i as int) =~= Seq::<Seq<char>>::empty());
                assert(rv.deep_view() + Seq::<Seq<char>>::empty() =~= rv.deep_view());
            }
            return rv;
        }
        let c = cs[i];
        if c == '\'' || c == '"' {
            let q = scan_quote(cs, i + 1, c);
            let run = crate::cursor::vec_subrange(cs, i, q + 1);
            let ghost old_rv = rv.deep_view();
            rv.push(run);
            proof {
                lemma_deep_view_chars(rv);
                assert(rv.deep_view() =~~= old_rv.push(run@));
                assert(old_rv.push(run@) + quote_runs(cs@, q + 1) =~~= old_rv + (seq![run@]
                    + quote_runs(cs@, q + 1)));
                assert(quote_runs(cs@, i as int) == seq![run@] + quote_runs(cs@, q + 1));
            }
            i = q + 1;
        } else {
            i = i + 1;
        }
    }
}

/// Checks the quoting of the candidate tag: collects every quoted run,
/// refuses repeated empty pairs, requires each run to close with its own
/// quote character, and refuses any quote character left outside the runs.
pub fn validate_token_html_quotes(tag_str: &str) -> (r: Result<(), HtmlError>)
    ensures
        r is Ok <==> quotes_ok(tag_str@),
        r is Err ==> r->Err_0@ == (ErrorModel::MalformedTagQuoting { tag: tag_str@ }),
{
    let cs = crate::cursor::str_to_chars(tag_str);
    let rv = collect_runs(&cs);
    let ghost rs = quote_runs(cs@, 0);
    proof {
        lemma_quote_runs_wf(cs@, 0);
        lemma_deep_view_chars(rv);
    }
    // Repeated empty quote pairs.
    let mut single_count: usize = 0;
    let mut double_count: usize = 0;
    let mut k: usize = 0;
    while k < rv.len()
        invariant
            k <= rv@.len(),
            cs@ == tag_str@,
            rs == quote_runs(cs@, 0),
            rs.len() == rv@.len(),
            forall|j: int| 0 <= j < rv@.len() ==> rs[j] == #[trigger] rv@[j]@,
            single_count == count_runs_eq(rs.subrange(0, k as int), seq!['\'', '\'']),
            double_count == count_runs_eq(rs.subrange(0, k as int), seq!['"', '"']),
            single_count <= k,
            double_count <= k,
        decreases rv@.len() - k,
    {
        let run = &rv[k];
        proof {
            assert(rs.subrange(0, k + 1).drop_last() =~= rs.subrange(0, k as int));
            assert(rs.subrange(0, k + 1).last() == run@);
        }
        if run.len() == 2 && run[0] == '\'' && run[1] == '\'' {
            proof {
                assert(run@ =~= seq!['\'', '\'']);
            }
            single_count = single_count + 1;
        } else {
            proof {
                assert(run@ != seq!['\'', '\'']);
            }
        }
        if run.len() == 2 && run[0] == '"' && run[1] == '"' {
            proof {
                assert(run@ =~= seq!['"', '"']);
            }
            double_count = double_count + 1;
        } else {
            proof {
                assert(run@ != seq!['"', '"']);
            }
        }
        k = k + 1;
    }
    proof {
        assert(rs.subrange(0, rs.len() as int) =~= rs);
    }
    if single_count > 1 || double_count > 1 {
        return Err(HtmlError::MalformedTagQuoting { tag: String::from_str(tag_str) });
    }
    // Each run must close with its opening quote character.
    let mut k: usize = 0;
    while k < rv.len()
        invariant
            k <= rv@.len(),
            cs@ == tag_str@,
            rs == quote_runs(cs@, 0),
            rs.len() == rv@.len(),
            forall|j: int| 0 <= j < rv@.len() ==> rs[j] == #[trigger] rv@[j]@,
            forall|j: int| 0 <= j < rs.len() ==> (#[trigger] rs[j]).len() >= 2,
            forall|j: int|
                0 <= j < k ==> (#[trigger] rs[j])[0] == rs[j][rs[j].len() - 1],
        decreases rv@.len() - k,
    {
        let run = &rv[k];
        if run[0] != run[run.len() - 1] {
            proof {
                assert(!runs_balanced(rs));
            }
            return Err(HtmlError::MalformedTagQuoting { tag: String::from_str(tag_str) });
        }
        k = k + 1;
    }
    proof {
        assert(runs_balanced(rs));
    }
    // Remove every run from a working copy; no quote character may remain.
    let mut work = crate::cursor::vec_subrange(&cs, 0, cs.len());
    proof {
        assert(cs@.subrange(0, cs@.len() as int) =~= cs@);
    }
    let mut k: usize = 0;
    while k < rv.len()
        invariant
            k <= rv@.len(),
            rs.len() == rv@.len(),
            forall|j: int| 0 <= j < rv@.len() ==> rs[j] == #[trigger] rv@[j]@,
            work@ == remove_runs_prefix(cs@, rs, k as int),
        decreases rv@.len() - k,
    {
        proof {
            lemma_remove_runs_prefix_step(cs@, rs, k as int);
        }
        work = exec_remove_pat(&work, &rv[k]);
        k = k + 1;
    }
    proof {
        lemma_remove_runs_prefix_full(cs@, rs);
    }
    let mut k: usize = 0;
    while k < work.len()
        invariant
            k <= work@.len(),
            cs@ == tag_str@,
            rs == quote_runs(cs@, 0),
            work@ == remove_runs(cs@, rs),
            forall|j: int| 0 <= j < k ==> !(work@[j] == '\'' || work@[j] == '"'),
        decreases work@.len() - k,
    {
        let c = work[k];
        if c == '\'' || c == '"' {
            return Err(HtmlError::MalformedTagQuoting { tag: String::from_str(tag_str) });
        }
        k = k + 1;
    }
    proof {
        assert(!has_quote(remove_runs(cs@, rs)));
    }
    Ok(())
}

/// `s` after removing the first `k` runs in order.
pub open spec fn remove_runs_prefix(s: Seq<char>, rs: Seq<Seq<char>>, k: int) -> Seq<char>
    decreases k,
{
    if k <= 0 {
        s
    } else {
        remove_pat(remove_runs_prefix(s, rs, k - 1), rs[k - 1])
    }
}

proof fn lemma_remove_runs_prefix_step(s: Seq<char>, rs: Seq<Seq<char>>, k: int)
    requires
        0 <= k,
    ensures
        remove_pat(remove_runs_prefix(s, rs, k), rs[k]) == remove_runs_prefix(s, rs, k + 1),
{
    reveal_with_fuel(remove_runs_prefix, 2);
}

proof fn lemma_remove_runs_agree(s: Seq<char>, rs: Seq<Seq<char>>, k: int)
    requires
        0 <= k <= rs.len(),
    ensures
        remove_runs(remove_runs_prefix(s, rs, k), rs.subrange(k, rs.len() as int)) == remove_runs(
            s,
            rs,
        ),
    decreases k,
{
    if k == 0 {
        assert(rs.subrange(0, rs.len() as int) =~= rs);
    } else {
        lemma_remove_runs_agree(s, rs, k - 1);
        let tail = rs.subrange(k - 1, rs.len() as int);
        assert(tail[0] == rs[k - 1]);
        assert(tail.subrange(1, tail.len() as int) =~= rs.subrange(k, rs.len() as int));
        lemma_remove_runs_prefix_step(s, rs, k - 1);
        assert(remove_runs(remove_runs_prefix(s, rs, k - 1), tail) == remove_runs(
            remove_pat(remove_runs_prefix(s, rs, k - 1), tail[0]),
            tail.subrange(1, tail.len() as int),
        ));
    }
}

proof fn lemma_remove_runs_prefix_full(s: Seq<char>, rs: Seq<Seq<char>>)
    ensures
        remove_runs_prefix(s, rs, rs.len() as int) == remove_runs(s, rs),
{
    lemma_remove_runs_agree(s, rs, rs.len() as int);
    assert(rs.subrange(rs.len() as int, rs.len() as int) =~= Seq::<Seq<char>>::empty());
}

/// The Unicode whitespace characters, the set both trimming and splitting
/// go by.
pub open spec fn is_ws(c: char) -> bool {
    let u = c as u32;
    (9 <= u && u <= 13) || u == 32 || u == 0x85 || u == 0xA0 || u == 0x1680 || (0x2000 <= u
        && u <= 0x200A) || u == 0x2028 || u == 0x2029 || u == 0x202F || u == 0x205F || u == 0x3000
}

pub fn is_ws_char(c: char) -> (b: bool)
    ensures
        b == is_ws(c),
{
    let u = c as u32;
    (9 <= u && u <= 13) || u == 32 || u == 0x85 || u == 0xA0 || u == 0x1680 || (0x2000 <= u
        && u <= 0x200A) || u == 0x2028 || u == 0x2029 || u == 0x202F || u == 0x205F || u == 0x3000
}

/// Index of the first non-whitespace character at or after `from`; the
/// length of `s` when there is none.
pub open spec fn skip_ws(s: Seq<char>, from: int) -> int
    decreases s.len() - from,
{
    if from < 0 || from >= s.len() {
        s.len() as int
    } else if is_ws(s[from]) {
        skip_ws(s, from + 1)
    } else {
        from
    }
}

/// Index of the first whitespace character at or after `from`; the length
/// of `s` when there is none.
pub open spec fn skip_non_ws(s: Seq<char>, from: int) -> int
    decreases s.len() - from,
{
    if from < 0 || from >= s.len() {
        s.len() as int
    } else if !is_ws(s[from]) {
        skip_non_ws(s, from + 1)
    } else {
        from
    }
}

/// Index of the last non-whitespace character at or before `from`; `-1`
/// when there is none.
pub open spec fn last_non_ws(s: Seq<char>, from: int) -> int
    decreases from + 1,
{
    if from < 0 {
        -1
    } else if from >= s.len() {
        last_non_ws(s, s.len() - 1)
    } else if is_ws(s[from]) {
        last_non_ws(s, from - 1)
    } else {
        from
    }
}

/// `s` with outer whitespace removed.
pub open spec fn trimmed(s: Seq<char>) -> Seq<char> {
    let a = skip_ws(s, 0);
    if a == s.len() {
        Seq::empty()
    } else {
        s.subrange(a, last_non_ws(s, s.len() - 1) + 1)
    }
}

proof fn lemma_skip_ws_bounds(s: Seq<char>, from: int)
    requires
        0 <= from <= s.len(),
    ensures
        from <= skip_ws(s, from) <= s.len(),
        skip_ws(s, from) < s.len() ==> !is_ws(s[skip_ws(s, from)]),
    decreases s.len() - from,
{
    if from < s.len() && is_ws(s[from]) {
        lemma_skip_ws_bounds(s, from + 1);
    }
}

proof fn lemma_skip_non_ws_bounds(s: Seq<char>, from: int)
    requires
        0 <= from <= s.len(),
    ensures
        from <= skip_non_ws(s, from) <= s.len(),
        skip_non_ws(s, from) < s.len() ==> is_ws(s[skip_non_ws(s, from)]),
    decreases s.len() - from,
{
    if from < s.len() && !is_ws(s[from]) {
        lemma_skip_non_ws_bounds(s, from + 1);
    }
}

proof fn lemma_last_non_ws_bounds(s: Seq<char>, from: int, i: int)
    requires
        0 <= i <= from,
        i < s.len(),
        !is_ws(s[i]),
    ensures
        i <= last_non_ws(s, from) < s.len(),
        !is_ws(s[last_non_ws(s, from)]),
    decreases from,
{
    if from >= s.len() {
        lemma_last_non_ws_bounds(s, s.len() - 1, i);
    } else if is_ws(s[from]) {
        lemma_last_non_ws_bounds(s, from - 1, i);
    }
}

fn exec_skip_ws(cs: &Vec<char>, from: usize) -> (r: usize)
    requires
        from <= cs@.len(),
    ensures
        r == skip_ws(cs@, from as int),
        from <= r <= cs@.len(),
{
    proof {
        lemma_skip_ws_bounds(cs@, from as int);
    }
    let mut i: usize = from;
    loop
        invariant
            from <= i <= cs@.len(),
            skip_ws(cs@, from as int) == skip_ws(cs@, i as int),
        decreases cs@.len() - i,
    {
        if i == cs.len() {
            return i;
        }
        if !is_ws_char(cs[i]) {
            return i;
        }
        i = i + 1;
    }
}

fn exec_skip_non_ws(cs: &Vec<char>, from: usize) -> (r: usize)
    requires
        from <= cs@.len(),
    ensures
        r == skip_non_ws(cs@, from as int),
        from <= r <= cs@.len(),
{
    proof {
        lemma_skip_non_ws_bounds(cs@, from as int);
    }
    let mut i: usize = from;
    loop
        invariant
            from <= i <= cs@.len(),
            skip_non_ws(cs@, from as int) == skip_non_ws(cs@, i as int),
        decreases cs@.len() - i,
    {
        if i == cs.len() {
            return i;
        }
        if is_ws_char(cs[i]) {
            return i;
        }
        i = i + 1;
    }
}

fn exec_last_non_ws(cs: &Vec<char>, witness: usize) -> (r: usize)
    requires
        witness < cs@.len(),
        !is_ws(cs@[witness as int]),
    ensures
        r == last_non_ws(cs@, cs@.len() - 1),
        witness <= r < cs@.len(),
{
    proof {
        lemma_last_non_ws_bounds(cs@, cs@.len() - 1, witness as int);
    }
    let mut i: usize = cs.len();
    loop
        invariant
            witness < i <= cs@.len(),
            !is_ws(cs@[witness as int]),
            last_non_ws(cs@, cs@.len() - 1) == last_non_ws(cs@, i - 1),
        decreases i,
    {
        if !is_ws_char(cs[i - 1]) {
            return i - 1;
        }
        i = i - 1;
    }
}

/// The ASCII-lowercased form of a character; anything but `A`..`Z`,
/// including uppercase letters beyond ASCII, is kept as it is. Tag names
/// are ASCII-normalized and no more.
pub open spec fn lower_char(c: char) -> char {
    match c {
        'A' => 'a',
        'B' => 'b',
        'C' => 'c',
        'D' => 'd',
        'E' => 'e',
        'F' => 'f',
        'G' => 'g',
        'H' => 'h',
        'I' => 'i',
        'J' => 'j',
        'K' => 'k',
        'L' => 'l',
        'M' => 'm',
        'N' => 'n',
        'O' => 'o',
        'P' => 'p',
        'Q' => 'q',
        'R' => 'r',
        'S' => 's',
        'T' => 't',
        'U' => 'u',
        'V' => 'v',
        'W' => 'w',
        'X' => 'x',
        'Y' => 'y',
        'Z' => 'z',
        _ => c,
    }
}

pub fn to_lower(c: char) -> (r: char)
    ensures
        r == lower_char(c),
{
    match c {
        'A' => 'a',
        'B' => 'b',
        'C' => 'c',
        'D' => 'd',
        'E' => 'e',
        'F' => 'f',
        'G' => 'g',
        'H' => 'h',
        'I' => 'i',
        'J' => 'j',
        'K' => 'k',
        'L' => 'l',
        'M' => 'm',
        'N' => 'n',
        'O' => 'o',
        'P' => 'p',
        'Q' => 'q',
        'R' => 'r',
        'S' => 's',
        'T' => 't',
        'U' => 'u',
        'V' => 'v',
        'W' => 'w',
        'X' => 'x',
        'Y' => 'y',
        'Z' => 'z',
        _ => c,
    }
}

/// The ASCII-lowercased form of a character sequence.
pub open spec fn lower_seq(s: Seq<char>) -> Seq<char> {
    s.map_values(|c: char| lower_char(c))
}

fn exec_lower_seq(cs: &Vec<char>) -> (r: Vec<char>)
    ensures
        r@ == lower_seq(cs@),
{
    let mut out: Vec<char> = Vec::new();
    let mut i: usize = 0;
    while i < cs.len()
        invariant
            i <= cs@.len(),
            out@ == lower_seq(cs@.subrange(0, i as int)),
        decreases cs@.len() - i,
    {
        out.push(to_lower(cs[i]));
        proof {
            assert(out@ =~= lower_seq(cs@.subrange(0, i + 1)));
        }
        i = i + 1;
    }
    proof {
        assert(cs@.subrange(0, cs@.len() as int) =~= cs@);
    }
    out
}

/// Index of the first character at or after `from` that is not a `/`; the
/// length of `s` when there is none.
pub open spec fn skip_slash(s: Seq<char>, from: int) -> int
    decreases s.len() - from,
{
    if from < 0 || from >= s.len() {
        s.len() as int
    } else if s[from] == '/' {
        skip_slash(s, from + 1)
    } else {
        from
    }
}

/// Index of the last character at or before `from` that is not a `/`;
/// `-1` when there is none.
pub open spec fn last_non_slash(s: Seq<char>, from: int) -> int
    decreases from + 1,
{
    if from < 0 {
        -1
    } else if from >= s.len() {
        last_non_slash(s, s.len() - 1)
    } else if s[from] == '/' {
        last_non_slash(s, from - 1)
    } else {
        from
    }
}

/// `p` with its leading and trailing runs of `/` removed; interior
/// slashes are kept.
pub open spec fn trim_slashes(p: Seq<char>) -> Seq<char> {
    let a = skip_slash(p, 0);
    if a == p.len() {
        Seq::empty()
    } else {
        p.subrange(a, last_non_slash(p, p.len() - 1) + 1)
    }
}

proof fn lemma_skip_slash_bounds(s: Seq<char>, from: int)
    requires
        0 <= from <= s.len(),
    ensures
        from <= skip_slash(s, from) <= s.len(),
        skip_slash(s, from) < s.len() ==> s[skip_slash(s, from)] != '/',
    decreases s.len() - from,
{
    if from < s.len() && s[from] == '/' {
        lemma_skip_slash_bounds(s, from + 1);
    }
}

proof fn lemma_last_non_slash_bounds(s: Seq<char>, from: int, i: int)
    requires
        0 <= i <= from,
        i < s.len(),
        s[i] != '/',
    ensures
        i <= last_non_slash(s, from) < s.len(),
        s[last_non_slash(s, from)] != '/',
    decreases from,
{
    if from >= s.len() {
        lemma_last_non_slash_bounds(s, s.len() - 1, i);
    } else if s[from] == '/' {
        lemma_last_non_slash_bounds(s, from - 1, i);
    }
}

fn exec_skip_slash(cs: &Vec<char>, from: usize) -> (r: usize)
    requires
        from <= cs@.len(),
    ensures
        r == skip_slash(cs@, from as int),
        from <= r <= cs@.len(),
{
    proof {
        lemma_skip_slash_bounds(cs@, from as int);
    }
    let mut i: usize = from;
    loop
        invariant
            from <= i <= cs@.len(),
            skip_slash(cs@, from as int) == skip_slash(cs@, i as int),
        decreases cs@.len() - i,
    {
        if i == cs.len() {
            return i;
        }
        if cs[i] != '/' {
            return i;
        }
        i = i + 1;
    }
}

fn exec_last_non_slash(cs: &Vec<char>, witness: usize) -> (r: usize)
    requires
        witness < cs@.len(),
        cs@[witness as int] != '/',
    ensures
        r == last_non_slash(cs@, cs@.len() - 1),
        witness <= r < cs@.len(),
{
    proof {
        lemma_last_non_slash_bounds(cs@, cs@.len() - 1, witness as int);
    }
    let mut i: usize = cs.len();
    loop
        invariant
            witness < i <= cs@.len(),
            cs@[witness as int] != '/',
            last_non_slash(cs@, cs@.len() - 1) == last_non_slash(cs@, i - 1),
        decreases i,
    {
        if cs[i - 1] != '/' {
            return i - 1;
        }
        i = i - 1;
    }
}

/// The name carried by a whitespace-split part: when the part begins or
/// ends with a `/`, the leading and trailing slashes are dropped and
/// interior ones kept; the result is lowercased.
pub open spec fn normalize_part(p: Seq<char>) -> Seq<char> {
    if p.len() > 0 && (p[0] == '/' || p[p.len() - 1] == '/') {
        lower_seq(trim_slashes(p))
    } else {
        lower_seq(p)
    }
}

/// The lowercased tag name extracted from a candidate tag, or nothing when
/// the tag has no legal shape: shorter than three characters once trimmed,
/// not delimited by `<` and `>`, or without a name part.
pub open spec fn spec_tag_name(s: Seq<char>) -> Option<Seq<char>> {
    let t = trimmed(s);
    if t.len() < 3 {
        None
    } else if t[0] != '<' || t[t.len() - 1] != '>' {
        None
    } else {
        let cleaned = crate::cursor::strip_char(crate::cursor::strip_char(t, '<'), '>');
        let a1 = skip_ws(cleaned, 0);
        if a1 == cleaned.len() {
            None
        } else {
            let p1 = cleaned.subrange(a1, skip_non_ws(cleaned, a1));
            if p1 == seq!['/'] {
                let a2 = skip_ws(cleaned, skip_non_ws(cleaned, a1));
                if a2 == cleaned.len() {
                    None
                } else {
                    Some(normalize_part(cleaned.subrange(a2, skip_non_ws(cleaned, a2))))
                }
            } else {
                Some(normalize_part(p1))
            }
        }
    }
}

proof fn lemma_lower_seq_lowercase(q: Seq<char>)
    ensures
        forall|k: int|
            0 <= k < lower_seq(q).len() ==> !(65 <= (#[trigger] lower_seq(q)[k]) as u32 <= 90),
{
    assert forall|k: int|
        0 <= k < lower_seq(q).len() implies !(65 <= (#[trigger] lower_seq(q)[k]) as u32
        <= 90) by {
        assert(lower_seq(q)[k] == lower_char(q[k]));
    }
}

proof fn lemma_normalize_part_lowercase(p: Seq<char>)
    ensures
        forall|k: int|
            0 <= k < normalize_part(p).len() ==> !(65 <= (#[trigger] normalize_part(p)[k]) as u32
                <= 90),
{
    if p.len() > 0 && (p[0] == '/' || p[p.len() - 1] == '/') {
        lemma_lower_seq_lowercase(trim_slashes(p));
    } else {
        lemma_lower_seq_lowercase(p);
    }
}

/// Case normalization: an extracted tag name never holds an uppercase
/// ASCII letter, whatever the casing of the input tag.
pub proof fn lemma_tag_name_lowercase(s: Seq<char>)
    requires
        spec_tag_name(s) is Some,
    ensures
        forall|k: int|
            0 <= k < spec_tag_name(s)->0.len() ==> !(65 <= (#[trigger] spec_tag_name(s)->0[k])
                as u32 <= 90),
{
    let t = trimmed(s);
    let cleaned = crate::cursor::strip_char(crate::cursor::strip_char(t, '<'), '>');
    let a1 = skip_ws(cleaned, 0);
    let p1 = cleaned.subrange(a1, skip_non_ws(cleaned, a1));
    if p1 == seq!['/'] {
        let a2 = skip_ws(cleaned, skip_non_ws(cleaned, a1));
        lemma_normalize_part_lowercase(cleaned.subrange(a2, skip_non_ws(cleaned, a2)));
    } else {
        lemma_normalize_part_lowercase(p1);
    }
}

/// Extracts the lowercased tag name from a candidate tag: trims it, checks
/// the `<`..`>` delimiters, drops the delimiters, splits on whitespace, and
/// takes the first part, or the second when the first is a lone `/`.
/// Lowercasing is ASCII-only: `A`..`Z` map to `a`..`z`, every other
/// character keeps its casing.
pub fn html_tag_name(tag: &str) -> (r: Result<String, HtmlError>)
    ensures
        r is Ok ==> spec_tag_name(tag@) == Some(r->Ok_0@),
        r is Err ==> spec_tag_name(tag@) is None && r->Err_0@ == (ErrorModel::InvalidTagShape {
            tag: tag@,
        }),
{
    let cs = crate::cursor::str_to_chars(tag);
    let a = exec_skip_ws(&cs, 0);
    let t: Vec<char> = if a == cs.len() {
        Vec::new()
    } else {
        proof {
            lemma_skip_ws_bounds(cs@, 0);
        }
        let b = exec_last_non_ws(&cs, a);
        proof {
            lemma_last_non_ws_bounds(cs@, cs@.len() - 1, a as int);
        }
        crate::cursor::vec_subrange(&cs, a, b + 1)
    };
    proof {
        assert(t@ == trimmed(cs@));
    }
    if t.len() < 3 {
        return Err(HtmlError::InvalidTagShape { tag: String::from_str(tag) });
    }
    if t[0] != '<' || t[t.len() - 1] != '>' {
        return Err(HtmlError::InvalidTagShape { tag: String::from_str(tag) });
    }
    let c1 = crate::cursor::exec_strip_char(&t, '<');
    let cleaned = crate::cursor::exec_strip_char(&c1, '>');
    let a1 = exec_skip_ws(&cleaned, 0);
    if a1 == cleaned.len() {
        return Err(HtmlError::InvalidTagShape { tag: String::from_str(tag) });
    }
    let e1 = exec_skip_non_ws(&cleaned, a1);
    let p1 = crate::cursor::vec_subrange(&cleaned, a1, e1);
    let target: Vec<char> = if p1.len() == 1 && p1[0] == '/' {
        proof {
            assert(p1@ =~= seq!['/']);
        }
        let a2 = exec_skip_ws(&cleaned, e1);
        if a2 == cleaned.len() {
            return Err(HtmlError::InvalidTagShape { tag: String::from_str(tag) });
        }
        let e2 = exec_skip_non_ws(&cleaned, a2);
        crate::cursor::vec_subrange(&cleaned, a2, e2)
    } else {
        proof {
            assert(p1@ != seq!['/']);
        }
        p1
    };
    let name: Vec<char> = if target.len() > 0 && (target[0] == '/' || target[target.len() - 1]
        == '/') {
        let a3 = exec_skip_slash(&target, 0);
        let stripped: Vec<char> = if a3 == target.len() {
            Vec::new()
        } else {
            proof {
                lemma_skip_slash_bounds(target@, 0);
            }
            let b3 = exec_last_non_slash(&target, a3);
            crate::cursor::vec_subrange(&target, a3, b3 + 1)
        };
        proof {
            assert(stripped@ == trim_slashes(target@));
        }
        exec_lower_seq(&stripped)
    } else {
        exec_lower_seq(&target)
    };
    Ok(crate::cursor::chars_to_string(&name))
}

} // verus!
