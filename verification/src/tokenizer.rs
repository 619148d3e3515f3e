//! The lexer: token types, per-tag classification, and the three-state
//! scan that turns a whole input into an ordered token sequence.
use vstd::prelude::*;

use crate::cursor::{
    exec_strip_char, extract, find_char, find_unquoted, scan_char, scan_unquoted, str_to_chars,
    strip_char, vec_subrange,
};
use crate::error::{ErrorModel, HtmlError};
use crate::html_utils::{quotes_ok, slash_count_ok, spec_tag_name};

verus! {

/// A lexical token of the input: tag tokens carry the lowercased name and
/// the exact source substring; text tokens carry the exact source
/// substring alone.
#[derive(Debug, PartialEq, Eq, Clone)]
pub enum TokenHtml {
    Open { tag_name: String, outer_html: String },
    Close { tag_name: String, outer_html: String },
    SelfClosing { tag_name: String, outer_html: String },
    PreLikeOpen { tag_name: String, outer_html: String },
    PreLikeClose { tag_name: String, outer_html: String },
    InnerText { text: String },
    Whitespace { text: String },
}

/// Mathematical model of a token: the same variants over character
/// sequences.
pub enum TokenModel {
    Open { tag_name: Seq<char>, outer_html: Seq<char> },
    Close { tag_name: Seq<char>, outer_html: Seq<char> },
    SelfClosing { tag_name: Seq<char>, outer_html: Seq<char> },
    PreLikeOpen { tag_name: Seq<char>, outer_html: Seq<char> },
    PreLikeClose { tag_name: Seq<char>, outer_html: Seq<char> },
    InnerText { text: Seq<char> },
    Whitespace { text: Seq<char> },
}

impl View for TokenHtml {
    type V = TokenModel;

    open spec fn view(&self) -> TokenModel {
        match self {
            TokenHtml::Open { tag_name, outer_html } => TokenModel::Open {
                tag_name: tag_name@,
                outer_html: outer_html@,
            },
            TokenHtml::Close { tag_name, outer_html } => TokenModel::Close {
                tag_name: tag_name@,
                outer_html: outer_html@,
            },
            TokenHtml::SelfClosing { tag_name, outer_html } => TokenModel::SelfClosing {
                tag_name: tag_name@,
                outer_html: outer_html@,
            },
            TokenHtml::PreLikeOpen { tag_name, outer_html } => TokenModel::PreLikeOpen {
                tag_name: tag_name@,
                outer_html: outer_html@,
            },
            TokenHtml::PreLikeClose { tag_name, outer_html } => TokenModel::PreLikeClose {
                tag_name: tag_name@,
                outer_html: outer_html@,
            },
            TokenHtml::InnerText { text } => TokenModel::InnerText { text: text@ },
            TokenHtml::Whitespace { text } => TokenModel::Whitespace { text: text@ },
        }
    }
}

impl DeepView for TokenHtml {
    type V = TokenModel;

    open spec fn deep_view(&self) -> TokenModel {
        self.view()
    }
}

/// Whether a token is one of the two text variants.
pub open spec fn is_text_model(t: TokenModel) -> bool {
    t is InnerText || t is Whitespace
}

/// The names of the raw-text elements, whose content is opaque until a
/// literal matching close tag.
pub open spec fn is_raw_text_name(n: Seq<char>) -> bool {
    n == "script"@ || n == "style"@ || n == "textarea"@ || n == "xmp"@ || n == "pre"@
}

fn is_raw_text_tag(name: &String) -> (b: bool)
    ensures
        b == is_raw_text_name(name@),
{
    *name == String::from_str("script") || *name == String::from_str("style") || *name
        == String::from_str("textarea") || *name == String::from_str("xmp") || *name
        == String::from_str("pre")
}

/// Classification of a candidate tag: the slash-count check, the
/// quote-balance check and the name extraction in that order, then the
/// variant, decided on the tag with spaces removed. Raw-text-set
/// membership is decided first: a raw-text name makes a raw-text close
/// when the `/` stands right after `<`, and a raw-text open otherwise.
/// For any other name, a `/` right after `<` makes a close tag and a `/`
/// right before the final `>` makes a self-closing tag.
pub open spec fn spec_classify(s: Seq<char>) -> Result<TokenModel, ErrorModel> {
    if !slash_count_ok(s) {
        Err(ErrorModel::MalformedTagSlashCount { tag: s })
    } else if !quotes_ok(s) {
        Err(ErrorModel::MalformedTagQuoting { tag: s })
    } else {
        match spec_tag_name(s) {
            None => Err(ErrorModel::InvalidTagShape { tag: s }),
            Some(name) => {
                let sq = strip_char(s, ' ');
                if is_raw_text_name(name) {
                    if sq.len() >= 2 && sq[1] == '/' {
                        Ok(TokenModel::PreLikeClose { tag_name: name, outer_html: s })
                    } else {
                        Ok(TokenModel::PreLikeOpen { tag_name: name, outer_html: s })
                    }
                } else if sq.len() >= 2 && sq[1] == '/' {
                    Ok(TokenModel::Close { tag_name: name, outer_html: s })
                } else if sq.len() >= 4 && sq[sq.len() - 2] == '/' {
                    Ok(TokenModel::SelfClosing { tag_name: name, outer_html: s })
                } else {
                    Ok(TokenModel::Open { tag_name: name, outer_html: s })
                }
            },
        }
    }
}

/// Validates a candidate tag and builds its token: the slash-count check,
/// the quote-balance check, the name extraction, then the variant
/// decision.
pub fn new_token_html_from_tag(tag_str: &str) -> (r: Result<TokenHtml, HtmlError>)
    ensures
        r is Ok ==> spec_classify(tag_str@) == Ok::<TokenModel, ErrorModel>(r->Ok_0@),
        r is Err ==> spec_classify(tag_str@) == Err::<TokenModel, ErrorModel>(r->Err_0@),
{
    match crate::html_utils::validate_token_html_backslash_count(tag_str) {
        Err(e) => {
            return Err(e);
        },
        Ok(_) => {},
    }
    match crate::html_utils::validate_token_html_quotes(tag_str) {
        Err(e) => {
            return Err(e);
        },
        Ok(_) => {},
    }
    let tag_name = match crate::html_utils::html_tag_name(tag_str) {
        Ok(n) => n,
        Err(e) => {
            return Err(e);
        },
    };
    let is_fmt = is_raw_text_tag(&tag_name);
    let cs = str_to_chars(tag_str);
    let sq = exec_strip_char(&cs, ' ');
    let outer = String::from_str(tag_str);
    if is_fmt {
        if sq.len() >= 2 && sq[1] == '/' {
            return Ok(TokenHtml::PreLikeClose { tag_name, outer_html: outer });
        }
        return Ok(TokenHtml::PreLikeOpen { tag_name, outer_html: outer });
    }
    if sq.len() >= 2 && sq[1] == '/' {
        return Ok(TokenHtml::Close { tag_name, outer_html: outer });
    }
    if sq.len() >= 4 && sq[sq.len() - 2] == '/' {
        return Ok(TokenHtml::SelfClosing { tag_name, outer_html: outer });
    }
    Ok(TokenHtml::Open { tag_name, outer_html: outer })
}

/// The lexer's three scanning states.
#[derive(Debug, PartialEq, Eq)]
enum LexerState {
    InTag,
    InText,
    InPreLike,
}

/// Model of the lexer state: the raw-text state carries the name of the
/// element whose close tag is being sought.
pub enum SpecState {
    Tag,
    Text,
    Pre { tag_name: Seq<char> },
}

/// The text token covering `t`: whitespace when nothing but spaces, inner
/// text otherwise.
pub open spec fn text_token(t: Seq<char>) -> TokenModel {
    if strip_char(t, ' ').len() == 0 {
        TokenModel::Whitespace { text: t }
    } else {
        TokenModel::InnerText { text: t }
    }
}

/// Where the candidate tag starting at `pos` ends: one past the first
/// unquoted `>`, or the end of the input when there is none.
pub open spec fn tag_end(s: Seq<char>, pos: int) -> int {
    let g = find_unquoted(s, pos, '>');
    if g < s.len() {
        g + 1
    } else {
        s.len() as int
    }
}

/// The literal close tag sought for a raw-text element.
pub open spec fn close_pat(name: Seq<char>) -> Seq<char> {
    seq!['<', '/'] + name + seq!['>']
}

/// Whether position `c` starts a close-tag candidate for `name`: a `<`
/// whose span through the next `>` equals the close tag once spaces are
/// removed.
pub open spec fn is_close_candidate(s: Seq<char>, c: int, name: Seq<char>) -> bool {
    &&& s[c] == '<'
    &&& {
        let g = find_char(s, c, '>');
        g < s.len() && strip_char(s.subrange(c, g + 1), ' ') == close_pat(name)
    }
}

/// The first close-tag candidate position at or after `c`; the length of
/// `s` when there is none.
pub open spec fn find_close(s: Seq<char>, c: int, name: Seq<char>) -> int
    decreases s.len() - c,
{
    if c < 0 || c >= s.len() {
        s.len() as int
    } else if is_close_candidate(s, c, name) {
        c
    } else {
        find_close(s, c + 1, name)
    }
}

proof fn lemma_find_close_bounds(s: Seq<char>, c: int, name: Seq<char>)
    requires
        0 <= c <= s.len(),
    ensures
        c <= find_close(s, c, name) <= s.len(),
        find_close(s, c, name) < s.len() ==> is_close_candidate(s, find_close(s, c, name), name),
    decreases s.len() - c,
{
    if c < s.len() && !is_close_candidate(s, c, name) {
        lemma_find_close_bounds(s, c + 1, name);
    }
}

/// Rank of a state for termination: a text scan may hand over to a tag
/// scan without moving.
pub open spec fn state_rank(st: SpecState) -> int {
    match st {
        SpecState::Tag => 0,
        SpecState::Text => 1,
        SpecState::Pre { .. } => 2,
    }
}

/// One complete run of the lexer from position `pos` in state `st`: the
/// tokens still to be emitted, or the first error. A tag scan spans
/// through the next unquoted `>`, classifies the span, and emits its
/// token; a text scan spans to the next `<` and emits inner text or
/// whitespace, or nothing when two tags are adjacent; a raw-text scan
/// seeks the literal matching close tag, quote-aware up to the first `<`
/// and quote-blind beyond, and fails when the input ends first.
pub open spec fn spec_run(s: Seq<char>, pos: int, st: SpecState) -> Result<
    Seq<TokenModel>,
    ErrorModel,
>
    decreases s.len() - pos, state_rank(st),
    via spec_run_decreases
{
    if pos < 0 || pos >= s.len() {
        match st {
            SpecState::Pre { tag_name } => Err(ErrorModel::UnterminatedRawText { tag_name }),
            _ => Ok(Seq::empty()),
        }
    } else {
        match st {
            SpecState::Tag => {
                let end = tag_end(s, pos);
                let tag = s.subrange(pos, end);
                match spec_classify(tag) {
                    Err(e) => Err(e),
                    Ok(t) => {
                        if is_text_model(t) {
                            Err(ErrorModel::InternalInvariantViolation { detail: tag })
                        } else {
                            match spec_run(s, end, spec_next_state(t, s, end)) {
                                Err(e) => Err(e),
                                Ok(rest) => Ok(seq![t] + rest),
                            }
                        }
                    },
                }
            },
            SpecState::Text => {
                let p = find_char(s, pos, '<');
                if p == pos {
                    spec_run(s, pos, SpecState::Tag)
                } else {
                    let t = text_token(s.subrange(pos, p));
                    match spec_run(s, p, SpecState::Tag) {
                        Err(e) => Err(e),
                        Ok(rest) => Ok(seq![t] + rest),
                    }
                }
            },
            SpecState::Pre { tag_name } => {
                let o = if s[pos] == '<' {
                    pos
                } else {
                    find_unquoted(s, pos, '<')
                };
                let c = find_close(s, o, tag_name);
                if c >= s.len() {
                    Err(ErrorModel::UnterminatedRawText { tag_name })
                } else {
                    let g = find_char(s, c, '>');
                    let close = TokenModel::PreLikeClose {
                        tag_name,
                        outer_html: s.subrange(c, g + 1),
                    };
                    match spec_run(s, g + 1, SpecState::Tag) {
                        Err(e) => Err(e),
                        Ok(rest) => {
                            if c == pos {
                                Ok(seq![close] + rest)
                            } else {
                                Ok(seq![text_token(s.subrange(pos, c)), close] + rest)
                            }
                        },
                    }
                }
            },
        }
    }
}

/// The state entered after emitting the tag token `t` with the scan now at
/// `end`: an open tag scans text next unless another tag follows at once;
/// a raw-text open scans raw text; a raw-text close scans a tag; close and
/// self-closing tags scan text.
pub open spec fn spec_next_state(t: TokenModel, s: Seq<char>, end: int) -> SpecState {
    match t {
        TokenModel::Open { .. } => {
            if end < s.len() && s[end] == '<' {
                SpecState::Tag
            } else {
                SpecState::Text
            }
        },
        TokenModel::Close { .. } => SpecState::Text,
        TokenModel::SelfClosing { .. } => SpecState::Text,
        TokenModel::PreLikeOpen { tag_name, .. } => SpecState::Pre { tag_name },
        TokenModel::PreLikeClose { .. } => SpecState::Tag,
        TokenModel::InnerText { .. } => SpecState::Tag,
        TokenModel::Whitespace { .. } => SpecState::Tag,
    }
}

#[via_fn]
proof fn spec_run_decreases(s: Seq<char>, pos: int, st: SpecState) {
    if 0 <= pos && pos < s.len() {
        match st {
            SpecState::Tag => {
                crate::cursor::lemma_find_unquoted_bounds(s, pos, '>');
            },
            SpecState::Text => {
                crate::cursor::lemma_find_char_bounds(s, pos, '<');
            },
            SpecState::Pre { tag_name } => {
                let o = if s[pos] == '<' {
                    pos
                } else {
                    find_unquoted(s, pos, '<')
                };
                crate::cursor::lemma_find_unquoted_bounds(s, pos, '<');
                lemma_find_close_bounds(s, o, tag_name);
                let c = find_close(s, o, tag_name);
                if 0 <= c < s.len() {
                    crate::cursor::lemma_find_char_bounds(s, c, '>');
                }
            },
        }
    }
}

/// The whole tokenization of `s`: a run from the start in the tag state.
pub open spec fn spec_tokenize(s: Seq<char>) -> Result<Seq<TokenModel>, ErrorModel> {
    spec_run(s, 0, SpecState::Tag)
}

/// The name carried by the raw-text open token at the end of `toks`.
pub open spec fn last_open_name(toks: Seq<TokenModel>) -> Seq<char> {
    if toks.len() > 0 {
        match toks.last() {
            TokenModel::PreLikeOpen { tag_name, .. } => tag_name,
            _ => Seq::empty(),
        }
    } else {
        Seq::empty()
    }
}

/// The lexer state modelled from the machine state and the tokens emitted
/// so far.
spec fn state_model(st: LexerState, toks: Seq<TokenModel>) -> SpecState {
    match st {
        LexerState::InTag => SpecState::Tag,
        LexerState::InText => SpecState::Text,
        LexerState::InPreLike => SpecState::Pre { tag_name: last_open_name(toks) },
    }
}

spec fn exec_state_rank(st: LexerState) -> int {
    match st {
        LexerState::InTag => 0,
        LexerState::InText => 1,
        LexerState::InPreLike => 2,
    }
}

/// What the whole tokenization yields once the tokens `done` are already
/// emitted and a run from `pos` in state `st` remains.
pub open spec fn run_cont(
    s: Seq<char>,
    pos: int,
    st: SpecState,
    done: Seq<TokenModel>,
) -> Result<Seq<TokenModel>, ErrorModel> {
    match spec_run(s, pos, st) {
        Ok(rest) => Ok(done + rest),
        Err(e) => Err(e),
    }
}

/// The views of a vector of tokens, element by element.
proof fn lemma_toks_deep_view(v: Vec<TokenHtml>)
    ensures
        v.deep_view().len() == v@.len(),
        forall|k: int| 0 <= k < v@.len() ==> v.deep_view()[k] == v@[k]@,
{
}

/// One step of the tag state: span through the next unquoted `>`,
/// classify the span, and hand back the token, the next position and the
/// next state.
fn handle_in_tag(src: &str, cs: &Vec<char>, pos: usize) -> (res: Result<
    (TokenHtml, usize, LexerState),
    HtmlError,
>)
    requires
        cs@ == src@,
        pos < cs@.len(),
    ensures
        ({
            let end = tag_end(cs@, pos as int);
            let tag = cs@.subrange(pos as int, end);
            match res {
                Ok((tok, np, nst)) => {
                    &&& np == end
                    &&& pos < np <= cs@.len()
                    &&& spec_classify(tag) == Ok::<TokenModel, ErrorModel>(tok@)
                    &&& !is_text_model(tok@)
                    &&& match tok@ {
                        TokenModel::Open { .. } => nst == (if end < cs@.len() && cs@[end] == '<' {
                            LexerState::InTag
                        } else {
                            LexerState::InText
                        }),
                        TokenModel::Close { .. } => nst == LexerState::InText,
                        TokenModel::SelfClosing { .. } => nst == LexerState::InText,
                        TokenModel::PreLikeOpen { .. } => nst == LexerState::InPreLike,
                        TokenModel::PreLikeClose { .. } => nst == LexerState::InTag,
                        _ => false,
                    }
                },
                Err(e) => spec_run(cs@, pos as int, SpecState::Tag) == Err::<
                    Seq<TokenModel>,
                    ErrorModel,
                >(e@),
            }
        }),
{
    let g = scan_unquoted(cs, pos, '>');
    let end = if g < cs.len() {
        g + 1
    } else {
        g
    };
    let tag_string = extract(src, pos, end);
    let tok = match new_token_html_from_tag(tag_string.as_str()) {
        Ok(t) => t,
        Err(e) => {
            return Err(e);
        },
    };
    let nst = match &tok {
        TokenHtml::Open { .. } => {
            if end < cs.len() && cs[end] == '<' {
                LexerState::InTag
            } else {
                LexerState::InText
            }
        },
        TokenHtml::Close { .. } => LexerState::InText,
        TokenHtml::SelfClosing { .. } => LexerState::InText,
        TokenHtml::PreLikeOpen { .. } => LexerState::InPreLike,
        TokenHtml::PreLikeClose { .. } => LexerState::InTag,
        TokenHtml::InnerText { .. } | TokenHtml::Whitespace { .. } => {
            return Err(HtmlError::InternalInvariantViolation { detail: tag_string });
        },
    };
    Ok((tok, end, nst))
}

/// One step of the text state: span to the next `<` and hand back the
/// text token, or nothing when another tag follows at once. The scan
/// always hands over to the tag state.
fn handle_in_text(src: &str, cs: &Vec<char>, pos: usize) -> (res: (Option<TokenHtml>, usize))
    requires
        cs@ == src@,
        pos < cs@.len(),
    ensures
        ({
            let p = find_char(cs@, pos as int, '<');
            &&& res.1 == p
            &&& pos <= p <= cs@.len()
            &&& (p == pos ==> res.0 is None)
            &&& (p > pos ==> res.0 is Some && res.0->0@ == text_token(
                cs@.subrange(pos as int, p),
            ))
        }),
{
    let p = scan_char(cs, pos, '<');
    if p == pos {
        return (None, pos);
    }
    let text = extract(src, pos, p);
    let tv = vec_subrange(cs, pos, p);
    let stripped = exec_strip_char(&tv, ' ');
    if stripped.len() == 0 {
        (Some(TokenHtml::Whitespace { text }), p)
    } else {
        (Some(TokenHtml::InnerText { text }), p)
    }
}

/// Whether `sq` is exactly the close tag `</name>`.
fn eq_close_pat(sq: &Vec<char>, name: &Vec<char>) -> (b: bool)
    ensures
        b == (sq@ == close_pat(name@)),
{
    if sq.len() < 3 {
        proof {
            assert(close_pat(name@).len() >= 3);
        }
        return false;
    }
    if sq.len() - 3 != name.len() {
        proof {
            assert(close_pat(name@).len() == name@.len() + 3);
        }
        return false;
    }
    if sq[0] != '<' || sq[1] != '/' || sq[sq.len() - 1] != '>' {
        proof {
            assert(close_pat(name@)[0] == '<');
            assert(close_pat(name@)[1] == '/');
            assert(close_pat(name@)[close_pat(name@).len() - 1] == '>');
        }
        return false;
    }
    let mut j: usize = 0;
    while j < name.len()
        invariant
            j <= name@.len(),
            sq@.len() == name@.len() + 3,
            sq@.len() <= usize::MAX,
            forall|k: int| 0 <= k < j ==> sq@[2 + k] == name@[k],
        decreases name@.len() - j,
    {
        if sq[2 + j] != name[j] {
            proof {
                assert(close_pat(name@)[2 + j] == name@[j as int]);
            }
            return false;
        }
        j = j + 1;
    }
    proof {
        assert(sq@ =~= close_pat(name@));
    }
    true
}

/// One step of the raw-text state: recover the open element's name from
/// the last emitted token, search for the literal matching close tag --
/// quote-aware up to the first `<`, quote-blind from there on -- and hand
/// back the content token, the close token and the next position. The
/// input ending first is fatal.
fn handle_in_pre_like(src: &str, cs: &Vec<char>, pos: usize, tokens: &Vec<TokenHtml>) -> (res:
    Result<(Option<TokenHtml>, TokenHtml, usize), HtmlError>)
    requires
        cs@ == src@,
        pos < cs@.len(),
        tokens@.len() > 0,
        tokens@[tokens@.len() - 1]@ is PreLikeOpen,
    ensures
        ({
            let name = last_open_name(tokens.deep_view());
            let o = if cs@[pos as int] == '<' {
                pos as int
            } else {
                find_unquoted(cs@, pos as int, '<')
            };
            let c = find_close(cs@, o, name);
            let g = find_char(cs@, c, '>');
            match res {
                Ok((otext, close, np)) => {
                    &&& c < cs@.len()
                    &&& np == g + 1
                    &&& pos < np <= cs@.len()
                    &&& close@ == (TokenModel::PreLikeClose {
                        tag_name: name,
                        outer_html: cs@.subrange(c, g + 1),
                    })
                    &&& (c == pos ==> otext is None)
                    &&& (c > pos ==> otext is Some && otext->0@ == text_token(
                        cs@.subrange(pos as int, c),
                    ))
                },
                Err(e) => spec_run(cs@, pos as int, SpecState::Pre { tag_name: name }) == Err::<
                    Seq<TokenModel>,
                    ErrorModel,
                >(e@),
            }
        }),
{
    proof {
        lemma_toks_deep_view(*tokens);
    }
    let name: String = match &tokens[tokens.len() - 1] {
        TokenHtml::PreLikeOpen { tag_name, .. } => tag_name.clone(),
        _ => {
            return Err(HtmlError::InternalInvariantViolation { detail: String::new() });
        },
    };
    let ghost spec_name = last_open_name(tokens.deep_view());
    proof {
        assert(name@ == spec_name);
    }
    let name_cs = str_to_chars(name.as_str());
    let o = if cs[pos] == '<' {
        pos
    } else {
        scan_unquoted(cs, pos, '<')
    };
    let ghost spec_o = if cs@[pos as int] == '<' {
        pos as int
    } else {
        find_unquoted(cs@, pos as int, '<')
    };
    proof {
        lemma_find_close_bounds(cs@, o as int, spec_name);
    }
    let mut c: usize = o;
    loop
        invariant
            cs@ == src@,
            pos < cs@.len(),
            o as int == spec_o,
            pos <= o <= c <= cs@.len(),
            name@ == spec_name,
            name_cs@ == spec_name,
            tokens@.len() > 0,
            spec_name == last_open_name(tokens.deep_view()),
            spec_o == (if cs@[pos as int] == '<' {
                pos as int
            } else {
                find_unquoted(cs@, pos as int, '<')
            }),
            find_close(cs@, spec_o, spec_name) == find_close(cs@, c as int, spec_name),
        decreases cs@.len() - c,
    {
        proof {
            lemma_find_close_bounds(cs@, c as int, spec_name);
        }
        if c >= cs.len() {
            proof {
                assert(find_close(cs@, spec_o, spec_name) == cs@.len());
            }
            return Err(HtmlError::UnterminatedRawText { tag_name: name });
        }
        if cs[c] == '<' {
            let g = scan_char(cs, c, '>');
            if g < cs.len() {
                let cand = vec_subrange(cs, c, g + 1);
                let sq = exec_strip_char(&cand, ' ');
                if eq_close_pat(&sq, &name_cs) {
                    proof {
                        assert(is_close_candidate(cs@, c as int, spec_name));
                        assert(find_close(cs@, c as int, spec_name) == c as int);
                    }
                    let close_str = extract(src, c, g + 1);
                    let close = TokenHtml::PreLikeClose { tag_name: name, outer_html: close_str };
                    if c == pos {
                        return Ok((None, close, g + 1));
                    }
                    let text = extract(src, pos, c);
                    let tv = vec_subrange(cs, pos, c);
                    let stripped = exec_strip_char(&tv, ' ');
                    let otext = if stripped.len() == 0 {
                        TokenHtml::Whitespace { text }
                    } else {
                        TokenHtml::InnerText { text }
                    };
                    return Ok((Some(otext), close, g + 1));
                }
                proof {
                    assert(!is_close_candidate(cs@, c as int, spec_name));
                }
            } else {
                proof {
                    assert(!is_close_candidate(cs@, c as int, spec_name));
                }
            }
        } else {
            proof {
                assert(!is_close_candidate(cs@, c as int, spec_name));
            }
        }
        c = c + 1;
    }
}

/// Tokenizes the whole input: either the complete ordered token sequence,
/// or the first error in document order with no partial result. A
/// successful tokenization is lossless -- the tokens' literal substrings
/// concatenate back to the input -- and keeps every raw-text element
/// paired with its own close token.
pub fn html_tokenize(source: &str) -> (r: Result<Vec<TokenHtml>, HtmlError>)
    ensures
        r is Ok ==> spec_tokenize(source@) == Ok::<Seq<TokenModel>, ErrorModel>(
            r->Ok_0.deep_view(),
        ),
        r is Ok ==> concat_texts(r->Ok_0.deep_view()) == source@,
        r is Ok ==> raw_text_paired(r->Ok_0.deep_view()),
        r is Err ==> spec_tokenize(source@) == Err::<Seq<TokenModel>, ErrorModel>(r->Err_0@),
{
    let cs = str_to_chars(source);
    let mut tokens: Vec<TokenHtml> = Vec::new();
    let mut pos: usize = 0;
    let mut state = LexerState::InTag;
    proof {
        assert(tokens.deep_view() =~= Seq::<TokenModel>::empty());
        if spec_run(cs@, 0, SpecState::Tag) is Ok {
            assert(Seq::<TokenModel>::empty() + spec_run(cs@, 0, SpecState::Tag)->Ok_0 =~= spec_run(
                cs@,
                0,
                SpecState::Tag,
            )->Ok_0);
        }
    }
    while pos < cs.len()
        invariant
            cs@ == source@,
            pos <= cs@.len(),
            state == LexerState::InPreLike ==> tokens@.len() > 0 && tokens@[tokens@.len() - 1]@
                is PreLikeOpen,
            spec_tokenize(source@) == run_cont(
                cs@,
                pos as int,
                state_model(state, tokens.deep_view()),
                tokens.deep_view(),
            ),
        decreases cs@.len() - pos, exec_state_rank(state),
    {
        match state {
            LexerState::InTag => {
                match handle_in_tag(source, &cs, pos) {
                    Ok((tok, np, nst)) => {
                        let ghost old_d = tokens.deep_view();
                        let ghost t = tok@;
                        let ghost s = cs@;
                        let ghost p = pos as int;
                        let ghost end = tag_end(s, p);
                        tokens.push(tok);
                        proof {
                            lemma_toks_deep_view(tokens);
                            assert(tokens.deep_view() =~= old_d.push(t));
                            let nstm = spec_next_state(t, s, end);
                            assert(spec_run(s, p, SpecState::Tag) == (match spec_run(
                                s,
                                end,
                                nstm,
                            ) {
                                Ok(rest) => Ok::<Seq<TokenModel>, ErrorModel>(seq![t] + rest),
                                Err(e) => Err(e),
                            }));
                            if t is PreLikeOpen {
                                assert(last_open_name(tokens.deep_view()) == t->PreLikeOpen_tag_name);
                            }
                            assert(state_model(nst, tokens.deep_view()) == nstm);
                            if spec_run(s, end, nstm) is Ok {
                                let rest = spec_run(s, end, nstm)->Ok_0;
                                assert(old_d + (seq![t] + rest) =~= old_d.push(t) + rest);
                            }
                        }
                        pos = np;
                        state = nst;
                    },
                    Err(e) => {
                        proof {
                            assert(spec_run(cs@, pos as int, SpecState::Tag) == Err::<
                                Seq<TokenModel>,
                                ErrorModel,
                            >(e@));
                            assert(spec_tokenize(source@) == Err::<Seq<TokenModel>, ErrorModel>(
                                e@,
                            ));
                        }
                        return Err(e);
                    },
                }
            },
            LexerState::InText => {
                let (otext, np) = handle_in_text(source, &cs, pos);
                let ghost old_d = tokens.deep_view();
                let ghost s = cs@;
                let ghost p = pos as int;
                let ghost q = find_char(s, p, '<');
                match otext {
                    Some(tk) => {
                        let ghost t = tk@;
                        tokens.push(tk);
                        proof {
                            lemma_toks_deep_view(tokens);
                            assert(tokens.deep_view() =~= old_d.push(t));
                            assert(spec_run(s, p, SpecState::Text) == (match spec_run(
                                s,
                                q,
                                SpecState::Tag,
                            ) {
                                Ok(rest) => Ok::<Seq<TokenModel>, ErrorModel>(seq![t] + rest),
                                Err(e) => Err(e),
                            }));
                            if spec_run(s, q, SpecState::Tag) is Ok {
                                let rest = spec_run(s, q, SpecState::Tag)->Ok_0;
                                assert(old_d + (seq![t] + rest) =~= old_d.push(t) + rest);
                            }
                        }
                    },
                    None => {
                        proof {
                            assert(spec_run(s, p, SpecState::Text) == spec_run(
                                s,
                                p,
                                SpecState::Tag,
                            ));
                        }
                    },
                }
                pos = np;
                state = LexerState::InTag;
            },
            LexerState::InPreLike => {
                match handle_in_pre_like(source, &cs, pos, &tokens) {
                    Ok((otext, close, np)) => {
                        let ghost old_d = tokens.deep_view();
                        let ghost s = cs@;
                        let ghost p = pos as int;
                        let ghost name = last_open_name(old_d);
                        let ghost o = if s[p] == '<' {
                            p
                        } else {
                            find_unquoted(s, p, '<')
                        };
                        let ghost c = find_close(s, o, name);
                        let ghost g = find_char(s, c, '>');
                        let ghost cm = close@;
                        let ghost pushed = if c == p {
                            seq![cm]
                        } else {
                            seq![text_token(s.subrange(p, c)), cm]
                        };
                        match otext {
                            Some(tk) => {
                                tokens.push(tk);
                            },
                            None => {},
                        }
                        tokens.push(close);
                        proof {
                            crate::cursor::lemma_find_unquoted_bounds(s, p, '<');
                            lemma_find_close_bounds(s, o, name);
                            lemma_toks_deep_view(tokens);
                            assert(tokens.deep_view() =~= old_d + pushed);
                            assert(spec_run(s, p, SpecState::Pre { tag_name: name }) == (
                            match spec_run(s, g + 1, SpecState::Tag) {
                                Ok(rest) => Ok::<Seq<TokenModel>, ErrorModel>(pushed + rest),
                                Err(e) => Err(e),
                            }));
                            if spec_run(s, g + 1, SpecState::Tag) is Ok {
                                let rest = spec_run(s, g + 1, SpecState::Tag)->Ok_0;
                                assert(old_d + (pushed + rest) =~= (old_d + pushed) + rest);
                            }
                        }
                        pos = np;
                        state = LexerState::InTag;
                    },
                    Err(e) => {
                        proof {
                            let ghost d = tokens.deep_view();
                            assert(state_model(LexerState::InPreLike, d) == (SpecState::Pre {
                                tag_name: last_open_name(d),
                            }));
                            assert(spec_tokenize(source@) == Err::<Seq<TokenModel>, ErrorModel>(
                                e@,
                            ));
                        }
                        return Err(e);
                    },
                }
            },
        }
    }
    match state {
        LexerState::InPreLike => {
            proof {
                lemma_toks_deep_view(tokens);
                assert(spec_run(
                    cs@,
                    pos as int,
                    state_model(LexerState::InPreLike, tokens.deep_view()),
                ) == Err::<Seq<TokenModel>, ErrorModel>(ErrorModel::UnterminatedRawText {
                    tag_name: last_open_name(tokens.deep_view()),
                }));
            }
            let name: String = match &tokens[tokens.len() - 1] {
                TokenHtml::PreLikeOpen { tag_name, .. } => tag_name.clone(),
                _ => {
                    return Err(HtmlError::InternalInvariantViolation { detail: String::new() });
                },
            };
            proof {
                assert(name@ == last_open_name(tokens.deep_view()));
            }
            return Err(HtmlError::UnterminatedRawText { tag_name: name });
        },
        _ => {},
    }
    proof {
        assert(spec_run(cs@, pos as int, state_model(state, tokens.deep_view())) == Ok::<
            Seq<TokenModel>,
            ErrorModel,
        >(Seq::empty()));
        assert(tokens.deep_view() + Seq::<TokenModel>::empty() =~= tokens.deep_view());
        lemma_round_trip(source@);
        lemma_raw_text_opacity(source@);
    }
    Ok(tokens)
}

/// The literal substring a token stands for: the exact source text of a
/// tag, or the text itself.
pub open spec fn token_text(t: TokenModel) -> Seq<char> {
    match t {
        TokenModel::Open { outer_html, .. } => outer_html,
        TokenModel::Close { outer_html, .. } => outer_html,
        TokenModel::SelfClosing { outer_html, .. } => outer_html,
        TokenModel::PreLikeOpen { outer_html, .. } => outer_html,
        TokenModel::PreLikeClose { outer_html, .. } => outer_html,
        TokenModel::InnerText { text } => text,
        TokenModel::Whitespace { text } => text,
    }
}

/// The concatenation of the tokens' literal substrings, in order.
pub open spec fn concat_texts(ts: Seq<TokenModel>) -> Seq<char>
    decreases ts.len(),
{
    if ts.len() == 0 {
        Seq::empty()
    } else {
        token_text(ts[0]) + concat_texts(ts.subrange(1, ts.len() as int))
    }
}

proof fn lemma_concat_prepend(t: TokenModel, rest: Seq<TokenModel>)
    ensures
        concat_texts(seq![t] + rest) == token_text(t) + concat_texts(rest),
{
    let ts = seq![t] + rest;
    assert(ts[0] == t);
    assert(ts.subrange(1, ts.len() as int) =~= rest);
}

/// A successful classification returns the candidate tag itself as the
/// token's source text, and never a text token.
pub proof fn lemma_classify_outer(s: Seq<char>)
    requires
        spec_classify(s) is Ok,
    ensures
        token_text(spec_classify(s)->Ok_0) == s,
        !is_text_model(spec_classify(s)->Ok_0),
{
}

/// Idempotence of classification: the source text carried by a
/// successfully classified tag token classifies to the very same token,
/// with the same variant and the same name.
pub proof fn lemma_classify_idempotent(s: Seq<char>)
    requires
        spec_classify(s) is Ok,
    ensures
        spec_classify(token_text(spec_classify(s)->Ok_0)) == spec_classify(s),
{
    lemma_classify_outer(s);
}

proof fn lemma_run_round_trip(s: Seq<char>, pos: int, st: SpecState)
    requires
        0 <= pos <= s.len(),
        spec_run(s, pos, st) is Ok,
    ensures
        concat_texts(spec_run(s, pos, st)->Ok_0) == s.subrange(pos, s.len() as int),
    decreases s.len() - pos, state_rank(st),
{
    if pos >= s.len() {
        assert(s.subrange(pos, s.len() as int) =~= Seq::<char>::empty());
    } else {
        match st {
            SpecState::Tag => {
                let end = tag_end(s, pos);
                let tag = s.subrange(pos, end);
                crate::cursor::lemma_find_unquoted_bounds(s, pos, '>');
                let t = spec_classify(tag)->Ok_0;
                let nst = spec_next_state(t, s, end);
                lemma_classify_outer(tag);
                lemma_run_round_trip(s, end, nst);
                let rest = spec_run(s, end, nst)->Ok_0;
                lemma_concat_prepend(t, rest);
                assert(s.subrange(pos, end) + s.subrange(end, s.len() as int) =~= s.subrange(
                    pos,
                    s.len() as int,
                ));
            },
            SpecState::Text => {
                let p = find_char(s, pos, '<');
                crate::cursor::lemma_find_char_bounds(s, pos, '<');
                if p == pos {
                    lemma_run_round_trip(s, pos, SpecState::Tag);
                } else {
                    let t = text_token(s.subrange(pos, p));
                    lemma_run_round_trip(s, p, SpecState::Tag);
                    let rest = spec_run(s, p, SpecState::Tag)->Ok_0;
                    lemma_concat_prepend(t, rest);
                    assert(token_text(t) == s.subrange(pos, p));
                    assert(s.subrange(pos, p) + s.subrange(p, s.len() as int) =~= s.subrange(
                        pos,
                        s.len() as int,
                    ));
                }
            },
            SpecState::Pre { tag_name } => {
                let o = if s[pos] == '<' {
                    pos
                } else {
                    find_unquoted(s, pos, '<')
                };
                crate::cursor::lemma_find_unquoted_bounds(s, pos, '<');
                lemma_find_close_bounds(s, o, tag_name);
                let c = find_close(s, o, tag_name);
                assert(c < s.len());
                assert(is_close_candidate(s, c, tag_name));
                let g = find_char(s, c, '>');
                crate::cursor::lemma_find_char_bounds(s, c, '>');
                let close = TokenModel::PreLikeClose {
                    tag_name,
                    outer_html: s.subrange(c, g + 1),
                };
                lemma_run_round_trip(s, g + 1, SpecState::Tag);
                let rest = spec_run(s, g + 1, SpecState::Tag)->Ok_0;
                lemma_concat_prepend(close, rest);
                assert(s.subrange(c, g + 1) + s.subrange(g + 1, s.len() as int) =~= s.subrange(
                    c,
                    s.len() as int,
                ));
                if c == pos {
                } else {
                    let t = text_token(s.subrange(pos, c));
                    lemma_concat_prepend(t, seq![close] + rest);
                    assert(seq![t] + (seq![close] + rest) =~= seq![t, close] + rest);
                    assert(token_text(t) == s.subrange(pos, c));
                    assert(s.subrange(pos, c) + s.subrange(c, s.len() as int) =~= s.subrange(
                        pos,
                        s.len() as int,
                    ));
                }
            },
        }
    }
}

/// Round trip: concatenating the literal substrings of all tokens of a
/// successful tokenization, in emitted order, reproduces the input
/// exactly.
pub proof fn lemma_round_trip(s: Seq<char>)
    requires
        spec_tokenize(s) is Ok,
    ensures
        concat_texts(spec_tokenize(s)->Ok_0) == s,
{
    lemma_run_round_trip(s, 0, SpecState::Tag);
    assert(s.subrange(0, s.len() as int) =~= s);
}

/// The lowercased name carried by a tag token; text tokens carry none.
pub open spec fn token_tag_name(t: TokenModel) -> Seq<char> {
    match t {
        TokenModel::Open { tag_name, .. } => tag_name,
        TokenModel::Close { tag_name, .. } => tag_name,
        TokenModel::SelfClosing { tag_name, .. } => tag_name,
        TokenModel::PreLikeOpen { tag_name, .. } => tag_name,
        TokenModel::PreLikeClose { tag_name, .. } => tag_name,
        TokenModel::InnerText { .. } => Seq::empty(),
        TokenModel::Whitespace { .. } => Seq::empty(),
    }
}

/// Case normalization: the name of a classified tag token never holds an
/// uppercase ASCII letter, while the token's source text keeps the
/// original casing untouched.
pub proof fn lemma_token_name_normalized(s: Seq<char>)
    requires
        spec_classify(s) is Ok,
    ensures
        token_text(spec_classify(s)->Ok_0) == s,
        forall|k: int|
            0 <= k < token_tag_name(spec_classify(s)->Ok_0).len() ==> !(65 <= (
            #[trigger] token_tag_name(spec_classify(s)->Ok_0)[k]) as u32 <= 90),
{
    lemma_classify_outer(s);
    crate::html_utils::lemma_tag_name_lowercase(s);
}

/// Whether the raw-text open token at `i` is followed at once by its
/// close token of the same name, with at most one text token between
/// them.
pub open spec fn closed_right_after(ts: Seq<TokenModel>, i: int) -> bool {
    ||| (i + 1 < ts.len() && ts[i + 1] is PreLikeClose && ts[i + 1]->PreLikeClose_tag_name == ts[
        i
    ]->PreLikeOpen_tag_name)
    ||| (i + 2 < ts.len() && is_text_model(ts[i + 1]) && ts[i + 2] is PreLikeClose && ts[i
        + 2]->PreLikeClose_tag_name == ts[i]->PreLikeOpen_tag_name)
}

/// Raw-text opacity over a token sequence: every raw-text open token is
/// followed, before any other tag token, by exactly one close token of
/// its own name, with at most one text token between them.
pub open spec fn raw_text_paired(ts: Seq<TokenModel>) -> bool {
    forall|i: int| 0 <= i < ts.len() && (#[trigger] ts[i]) is PreLikeOpen ==> closed_right_after(
        ts,
        i,
    )
}

proof fn lemma_run_raw(s: Seq<char>, pos: int, st: SpecState)
    requires
        0 <= pos <= s.len(),
        spec_run(s, pos, st) is Ok,
    ensures
        raw_text_paired(spec_run(s, pos, st)->Ok_0),
        st is Pre ==> ({
            let res = spec_run(s, pos, st)->Ok_0;
            res.len() >= 1 && ((res[0] is PreLikeClose && res[0]->PreLikeClose_tag_name
                == st->Pre_tag_name) || (res.len() >= 2 && is_text_model(res[0]) && res[1]
                is PreLikeClose && res[1]->PreLikeClose_tag_name == st->Pre_tag_name))
        }),
    decreases s.len() - pos, state_rank(st),
{
    if pos >= s.len() {
    } else {
        match st {
            SpecState::Tag => {
                let end = tag_end(s, pos);
                let tag = s.subrange(pos, end);
                crate::cursor::lemma_find_unquoted_bounds(s, pos, '>');
                let t = spec_classify(tag)->Ok_0;
                let nst = spec_next_state(t, s, end);
                lemma_run_raw(s, end, nst);
                let rest = spec_run(s, end, nst)->Ok_0;
                let res = seq![t] + rest;
                assert forall|i: int|
                    0 <= i < res.len() && (#[trigger] res[i]) is PreLikeOpen implies closed_right_after(
                    res,
                    i,
                ) by {
                    if i == 0 {
                        assert(t is PreLikeOpen);
                        assert(nst == (SpecState::Pre { tag_name: t->PreLikeOpen_tag_name }));
                        assert(res[1] == rest[0]);
                        if rest.len() >= 2 {
                            assert(res[2] == rest[1]);
                        }
                    } else {
                        assert(res[i] == rest[i - 1]);
                        assert(closed_right_after(rest, i - 1));
                        assert(res[i + 1] == rest[i]);
                        if i + 2 < res.len() {
                            assert(res[i + 2] == rest[i + 1]);
                        }
                    }
                }
            },
            SpecState::Text => {
                let p = find_char(s, pos, '<');
                crate::cursor::lemma_find_char_bounds(s, pos, '<');
                if p == pos {
                    lemma_run_raw(s, pos, SpecState::Tag);
                } else {
                    let t = text_token(s.subrange(pos, p));
                    lemma_run_raw(s, p, SpecState::Tag);
                    let rest = spec_run(s, p, SpecState::Tag)->Ok_0;
                    let res = seq![t] + rest;
                    assert forall|i: int|
                        0 <= i < res.len() && (#[trigger] res[i]) is PreLikeOpen implies closed_right_after(
                        res,
                        i,
                    ) by {
                        assert(!(t is PreLikeOpen));
                        assert(res[i] == rest[i - 1]);
                        assert(closed_right_after(rest, i - 1));
                        assert(res[i + 1] == rest[i]);
                        if i + 2 < res.len() {
                            assert(res[i + 2] == rest[i + 1]);
                        }
                    }
                }
            },
            SpecState::Pre { tag_name } => {
                let o = if s[pos] == '<' {
                    pos
                } else {
                    find_unquoted(s, pos, '<')
                };
                crate::cursor::lemma_find_unquoted_bounds(s, pos, '<');
                lemma_find_close_bounds(s, o, tag_name);
                let c = find_close(s, o, tag_name);
                assert(c < s.len());
                assert(is_close_candidate(s, c, tag_name));
                let g = find_char(s, c, '>');
                crate::cursor::lemma_find_char_bounds(s, c, '>');
                let close = TokenModel::PreLikeClose {
                    tag_name,
                    outer_html: s.subrange(c, g + 1),
                };
                lemma_run_raw(s, g + 1, SpecState::Tag);
                let rest = spec_run(s, g + 1, SpecState::Tag)->Ok_0;
                let pushed = if c == pos {
                    seq![close]
                } else {
                    seq![text_token(s.subrange(pos, c)), close]
                };
                let res = pushed + rest;
                assert forall|i: int|
                    0 <= i < res.len() && (#[trigger] res[i]) is PreLikeOpen implies closed_right_after(
                    res,
                    i,
                ) by {
                    assert(!(close is PreLikeOpen));
                    if c != pos {
                        assert(!(text_token(s.subrange(pos, c)) is PreLikeOpen));
                    }
                    assert(i >= pushed.len());
                    assert(res[i] == rest[i - pushed.len()]);
                    assert(closed_right_after(rest, i - pushed.len()));
                    assert(res[i + 1] == rest[i + 1 - pushed.len()]);
                    if i + 2 < res.len() {
                        assert(res[i + 2] == rest[i + 2 - pushed.len()]);
                    }
                }
                assert(res[0] == pushed[0]);
                if c != pos {
                    assert(res[1] == pushed[1]);
                }
            },
        }
    }
}

/// Raw-text opacity: in a successful tokenization every raw-text open
/// token is followed, before any other tag token, by exactly one close
/// token of its own name, with at most one text token between them.
pub proof fn lemma_raw_text_opacity(s: Seq<char>)
    requires
        spec_tokenize(s) is Ok,
    ensures
        raw_text_paired(spec_tokenize(s)->Ok_0),
{
    lemma_run_raw(s, 0, SpecState::Tag);
}

} // verus!
