//! Splitting source text into tokens.
use vstd::prelude::*;
use vstd::string::StringExecFns;
use std::ops::Range;
use crate::text::{
    byte_len, byte_length, char_is_alphanumeric, char_is_whitespace, chars_of, slice_chars,
    unicode_alphanumeric, unicode_white_space, utf8_width,
};
use crate::text::{lemma_byte_len_take_mono, lemma_byte_len_take_step, str_eq};

verus! {

/// What a token is, with the source text it carries.
#[derive(Debug, Clone, Copy, PartialEq, Eq)]
pub enum TokenKind<'src> {
    At,
    Ident(&'src str),
    Variable(&'src str),
    ParenOpen,
    ParenClose,
    Comma,
    BlockOpen,
    BlockClose,
    Text(&'src str),
}

/// The mathematical value of a [`TokenKind`]: the carried text as characters.
pub enum SpecTokenKind {
    At,
    Ident(Seq<char>),
    Variable(Seq<char>),
    ParenOpen,
    ParenClose,
    Comma,
    BlockOpen,
    BlockClose,
    Text(Seq<char>),
}

impl<'src> View for TokenKind<'src> {
    type V = SpecTokenKind;

    open spec fn view(&self) -> SpecTokenKind {
        match *self {
            TokenKind::At => SpecTokenKind::At,
            TokenKind::Ident(s) => SpecTokenKind::Ident(s@),
            TokenKind::Variable(s) => SpecTokenKind::Variable(s@),
            TokenKind::ParenOpen => SpecTokenKind::ParenOpen,
            TokenKind::ParenClose => SpecTokenKind::ParenClose,
            TokenKind::Comma => SpecTokenKind::Comma,
            TokenKind::BlockOpen => SpecTokenKind::BlockOpen,
            TokenKind::BlockClose => SpecTokenKind::BlockClose,
            TokenKind::Text(s) => SpecTokenKind::Text(s@),
        }
    }
}

/// How a token kind is written in messages (the `Display` form): the
/// punctuation itself, a variable with its `$`, text and identifiers as
/// they are. A block delimiter is written as a single brace.
pub open spec fn display_text(k: SpecTokenKind) -> Seq<char> {
    match k {
        SpecTokenKind::At => "@"@,
        SpecTokenKind::Ident(s) => s,
        SpecTokenKind::Variable(s) => "$"@ + s,
        SpecTokenKind::ParenOpen => "("@,
        SpecTokenKind::ParenClose => ")"@,
        SpecTokenKind::Comma => ","@,
        SpecTokenKind::BlockOpen => "{"@,
        SpecTokenKind::BlockClose => "}"@,
        SpecTokenKind::Text(s) => s,
    }
}

impl<'src> TokenKind<'src> {
    /// The `Display` form of the token kind.
    pub fn to_display_string(&self) -> (r: String)
        ensures
            r@ == display_text(self@),
    {
        match *self {
            TokenKind::At => String::from_str("@"),
            TokenKind::Ident(s) => String::from_str(s),
            TokenKind::Variable(s) => {
                let mut r = String::from_str("$");
                r.append(s);
                r
            },
            TokenKind::ParenOpen => String::from_str("("),
            TokenKind::ParenClose => String::from_str(")"),
            TokenKind::Comma => String::from_str(","),
            TokenKind::BlockOpen => String::from_str("{"),
            TokenKind::BlockClose => String::from_str("}"),
            TokenKind::Text(s) => String::from_str(s),
        }
    }

    /// Whether two token kinds are equal: the same kind, carrying the same text.
    pub fn same(&self, other: &TokenKind<'src>) -> (r: bool)
        ensures
            r == (self@ == other@),
    {
        match (*self, *other) {
            (TokenKind::At, TokenKind::At) => true,
            (TokenKind::Ident(a), TokenKind::Ident(b)) => str_eq(a, b),
            (TokenKind::Variable(a), TokenKind::Variable(b)) => str_eq(a, b),
            (TokenKind::ParenOpen, TokenKind::ParenOpen) => true,
            (TokenKind::ParenClose, TokenKind::ParenClose) => true,
            (TokenKind::Comma, TokenKind::Comma) => true,
            (TokenKind::BlockOpen, TokenKind::BlockOpen) => true,
            (TokenKind::BlockClose, TokenKind::BlockClose) => true,
            (TokenKind::Text(a), TokenKind::Text(b)) => str_eq(a, b),
            _ => false,
        }
    }
}

/// A token: its kind and its span of byte offsets.
#[derive(Debug)]
pub struct Token<'src> {
    kind: TokenKind<'src>,
    span: Range<usize>,
}

/// The mathematical value of a [`Token`].
pub struct SpecToken {
    pub kind: SpecTokenKind,
    pub span_start: nat,
    pub span_end: nat,
}

impl<'src> View for Token<'src> {
    type V = SpecToken;

    closed spec fn view(&self) -> SpecToken {
        SpecToken { kind: self.kind@, span_start: self.span.start as nat, span_end: self.span.end as nat }
    }
}

impl<'src> Token<'src> {
    pub fn new(kind: TokenKind<'src>, span: Range<usize>) -> (t: Self)
        ensures
            t@ == (SpecToken { kind: kind@, span_start: span.start as nat, span_end: span.end as nat }),
    {
        Token { kind, span }
    }

    pub fn kind(&self) -> (k: TokenKind<'src>)
        ensures
            k@ == self@.kind,
    {
        self.kind
    }

    pub fn span(&self) -> (r: &Range<usize>)
        ensures
            r.start == self@.span_start,
            r.end == self@.span_end,
    {
        &self.span
    }
}


// ---------------------------------------------------------------------------
// The tokenizer, stated over the characters of the source and a
// classification of each character (whitespace, alphanumeric).

/// Characters that may continue an identifier or a variable name.
pub open spec fn is_ident_char(s: Seq<char>, alnum: Seq<bool>, j: int) -> bool {
    alnum[j] || s[j] == '_'
}

/// The end of the run of identifier characters that starts at `k`.
pub open spec fn ident_end(s: Seq<char>, alnum: Seq<bool>, k: int) -> int
    decreases s.len() - k,
{
    if k < 0 || k >= s.len() || !is_ident_char(s, alnum, k) {
        k
    } else {
        ident_end(s, alnum, k + 1)
    }
}

/// `{{` starts at `k`.
pub open spec fn opens_block(s: Seq<char>, k: int) -> bool {
    0 <= k && k + 1 < s.len() && s[k] == '{' && s[k + 1] == '{'
}

/// `}}` starts at `k`.
pub open spec fn closes_block(s: Seq<char>, k: int) -> bool {
    0 <= k && k + 1 < s.len() && s[k] == '}' && s[k + 1] == '}'
}

/// A character at which a run of text stops: one that starts another token.
pub open spec fn is_text_stop(s: Seq<char>, j: int) -> bool {
    ||| s[j] == '@'
    ||| s[j] == '$'
    ||| s[j] == '('
    ||| s[j] == ')'
    ||| s[j] == ','
    ||| opens_block(s, j)
    ||| closes_block(s, j)
}

/// The end of the run of text that starts at `k`.
pub open spec fn text_end(s: Seq<char>, k: int) -> int
    decreases s.len() - k,
{
    if k < 0 || k >= s.len() || is_text_stop(s, k) {
        k
    } else {
        text_end(s, k + 1)
    }
}

/// The first position at or after `k` that is not whitespace.
pub open spec fn skip_white(s: Seq<char>, white: Seq<bool>, k: int) -> int
    decreases s.len() - k,
{
    if k < 0 || k >= s.len() || !white[k] {
        k
    } else {
        skip_white(s, white, k + 1)
    }
}

/// The token that starts at `k` (a position holding a character), the
/// position after it and the block depth after it.
pub open spec fn token_at(s: Seq<char>, alnum: Seq<bool>, k: int, depth: nat) -> (SpecTokenKind, int, nat) {
    if opens_block(s, k) {
        (SpecTokenKind::BlockOpen, k + 2, depth + 1)
    } else if closes_block(s, k) {
        (SpecTokenKind::BlockClose, k + 2, if depth == 0 { 0 } else { (depth - 1) as nat })
    } else if s[k] == '@' {
        (SpecTokenKind::At, k + 1, depth)
    } else if s[k] == '(' {
        (SpecTokenKind::ParenOpen, k + 1, depth)
    } else if s[k] == ')' {
        (SpecTokenKind::ParenClose, k + 1, depth)
    } else if s[k] == ',' {
        (SpecTokenKind::Comma, k + 1, depth)
    } else if s[k] == '$' {
        let e = ident_end(s, alnum, k + 1);
        (SpecTokenKind::Variable(s.subrange(k + 1, e)), e, depth)
    } else if is_ident_char(s, alnum, k) {
        let e = ident_end(s, alnum, k);
        (SpecTokenKind::Ident(s.subrange(k, e)), e, depth)
    } else {
        let e = text_end(s, k);
        (SpecTokenKind::Text(s.subrange(k, e)), e, depth)
    }
}

/// One step of the tokenizer from position `k` at block depth `depth`:
/// whitespace is skipped outside blocks, then the next token is read.
/// `None` when only skipped whitespace is left. The token's span runs from
/// the byte offset after it to the end of the source.
pub open spec fn step(s: Seq<char>, white: Seq<bool>, alnum: Seq<bool>, k: int, depth: nat) -> Option<(SpecToken, int, nat)> {
    let j = if depth == 0 { skip_white(s, white, k) } else { k };
    if j < 0 || j >= s.len() {
        None
    } else {
        let (kind, e, d) = token_at(s, alnum, j, depth);
        Some((SpecToken { kind, span_start: byte_len(s.take(e)), span_end: byte_len(s) }, e, d))
    }
}

pub proof fn lemma_ident_end_bounds(s: Seq<char>, alnum: Seq<bool>, k: int)
    requires
        0 <= k <= s.len(),
    ensures
        k <= ident_end(s, alnum, k) <= s.len(),
        forall|j: int| k <= j < ident_end(s, alnum, k) ==> is_ident_char(s, alnum, j),
        ident_end(s, alnum, k) < s.len() ==> !is_ident_char(s, alnum, ident_end(s, alnum, k)),
    decreases s.len() - k,
{
    if k < s.len() && is_ident_char(s, alnum, k) {
        lemma_ident_end_bounds(s, alnum, k + 1);
    }
}

pub proof fn lemma_text_end_bounds(s: Seq<char>, k: int)
    requires
        0 <= k <= s.len(),
    ensures
        k <= text_end(s, k) <= s.len(),
        forall|j: int| k <= j < text_end(s, k) ==> !is_text_stop(s, j),
        text_end(s, k) < s.len() ==> is_text_stop(s, text_end(s, k)),
    decreases s.len() - k,
{
    if k < s.len() && !is_text_stop(s, k) {
        lemma_text_end_bounds(s, k + 1);
    }
}

pub proof fn lemma_skip_white_bounds(s: Seq<char>, white: Seq<bool>, k: int)
    requires
        0 <= k <= s.len(),
    ensures
        k <= skip_white(s, white, k) <= s.len(),
        forall|j: int| k <= j < skip_white(s, white, k) ==> white[j],
        skip_white(s, white, k) < s.len() ==> !white[skip_white(s, white, k)],
    decreases s.len() - k,
{
    if k < s.len() && white[k] {
        lemma_skip_white_bounds(s, white, k + 1);
    }
}

/// Every token covers at least one character.
pub proof fn lemma_token_at_advances(s: Seq<char>, alnum: Seq<bool>, k: int, depth: nat)
    requires
        0 <= k < s.len(),
    ensures
        k < token_at(s, alnum, k, depth).1 <= s.len(),
{
    lemma_ident_end_bounds(s, alnum, k + 1);
    lemma_ident_end_bounds(s, alnum, k);
    lemma_text_end_bounds(s, k);
    if !opens_block(s, k) && !closes_block(s, k) && !is_ident_char(s, alnum, k) {
        assert(!is_text_stop(s, k) ==> text_end(s, k) == text_end(s, k + 1));
        lemma_text_end_bounds(s, k + 1);
    }
}

pub proof fn lemma_step_advances(s: Seq<char>, white: Seq<bool>, alnum: Seq<bool>, k: int, depth: nat)
    requires
        0 <= k <= s.len(),
    ensures
        step(s, white, alnum, k, depth) matches Some((_, e, _)) ==> k < e <= s.len(),
{
    lemma_skip_white_bounds(s, white, k);
    let j = if depth == 0 { skip_white(s, white, k) } else { k };
    if 0 <= j < s.len() {
        lemma_token_at_advances(s, alnum, j, depth);
    }
}

/// The tokens read from position `k` at block depth `depth` to the end.
pub open spec fn tokens_from(s: Seq<char>, white: Seq<bool>, alnum: Seq<bool>, k: int, depth: nat) -> Seq<SpecToken>
    decreases s.len() - k,
{
    if k < 0 || k > s.len() {
        Seq::empty()
    } else {
        match step(s, white, alnum, k, depth) {
            None => Seq::empty(),
            Some((t, e, d)) => {
                proof {
                    lemma_step_advances(s, white, alnum, k, depth);
                }
                seq![t] + tokens_from(s, white, alnum, e, d)
            },
        }
    }
}

/// The piece of source text that a token is read from.
pub open spec fn source_text(k: SpecTokenKind) -> Seq<char> {
    match k {
        SpecTokenKind::At => seq!['@'],
        SpecTokenKind::Ident(s) => s,
        SpecTokenKind::Variable(s) => seq!['$'] + s,
        SpecTokenKind::ParenOpen => seq!['('],
        SpecTokenKind::ParenClose => seq![')'],
        SpecTokenKind::Comma => seq![','],
        SpecTokenKind::BlockOpen => seq!['{', '{'],
        SpecTokenKind::BlockClose => seq!['}', '}'],
        SpecTokenKind::Text(s) => s,
    }
}

/// `toks` were read in order from `s`, starting at character position
/// `from`: token `k` is the text `source_text` ending at character position
/// `ends[k]`, the span of token `k` starts at the byte offset of `ends[k]`
/// and ends at the end of `s`, and all that lies between the tokens, and
/// after the last one, is whitespace.
pub open spec fn read_verbatim(s: Seq<char>, white: Seq<bool>, toks: Seq<SpecToken>, ends: Seq<int>, from: int) -> bool {
    &&& ends.len() == toks.len()
    &&& forall|k: int| #![trigger toks[k]] 0 <= k < toks.len() ==> {
        let start = ends[k] - source_text(toks[k].kind).len();
        let prev = if k == 0 { from } else { ends[k - 1] };
        &&& prev <= start < ends[k] <= s.len()
        &&& s.subrange(start, ends[k]) == source_text(toks[k].kind)
        &&& (forall|j: int| prev <= j < start ==> white[j])
        &&& toks[k].span_start == byte_len(s.take(ends[k]))
        &&& toks[k].span_end == byte_len(s)
    }
    &&& forall|j: int| (if toks.len() == 0 { from } else { ends.last() }) <= j < s.len() ==> white[j]
}

/// Each token is the source text it was read from.
pub proof fn lemma_token_at_text(s: Seq<char>, alnum: Seq<bool>, k: int, depth: nat)
    requires
        0 <= k < s.len(),
    ensures
        s.subrange(k, token_at(s, alnum, k, depth).1) == source_text(token_at(s, alnum, k, depth).0),
{
    lemma_token_at_advances(s, alnum, k, depth);
    let (kind, e, _) = token_at(s, alnum, k, depth);
    if opens_block(s, k) || closes_block(s, k) {
        assert(s.subrange(k, e) =~= source_text(kind));
    } else if s[k] == '$' {
        lemma_ident_end_bounds(s, alnum, k + 1);
        assert(s.subrange(k, e) =~= source_text(kind));
    } else {
        assert(s.subrange(k, e) =~= source_text(kind));
    }
}

/// A name ends where the run of name characters ends: the character
/// after an identifier or a variable, if there is one, cannot continue it.
pub open spec fn names_end_at(s: Seq<char>, alnum: Seq<bool>, kind: SpecTokenKind, end: int) -> bool {
    (kind is Ident || kind is Variable) && end < s.len() ==> !is_ident_char(s, alnum, end)
}

/// Every identifier and variable of `toks`, ending at `ends`, is as long
/// as the name characters after it allow.
pub open spec fn names_end_at_boundary(s: Seq<char>, alnum: Seq<bool>, toks: Seq<SpecToken>, ends: Seq<int>) -> bool {
    forall|m: int| 0 <= m < toks.len() ==> names_end_at(s, alnum, #[trigger] toks[m].kind, ends[m])
}

proof fn lemma_token_at_name_end(s: Seq<char>, alnum: Seq<bool>, k: int, depth: nat)
    requires
        0 <= k < s.len(),
    ensures
        names_end_at(s, alnum, token_at(s, alnum, k, depth).0, token_at(s, alnum, k, depth).1),
{
    lemma_ident_end_bounds(s, alnum, k + 1);
    lemma_ident_end_bounds(s, alnum, k);
}

pub proof fn lemma_tokens_from_verbatim(s: Seq<char>, white: Seq<bool>, alnum: Seq<bool>, k: int, depth: nat) -> (ends: Seq<int>)
    requires
        0 <= k <= s.len(),
    ensures
        read_verbatim(s, white, tokens_from(s, white, alnum, k, depth), ends, k),
        names_end_at_boundary(s, alnum, tokens_from(s, white, alnum, k, depth), ends),
    decreases s.len() - k,
{
    lemma_skip_white_bounds(s, white, k);
    let toks = tokens_from(s, white, alnum, k, depth);
    match step(s, white, alnum, k, depth) {
        None => {
            assert(toks =~= Seq::<SpecToken>::empty());
            Seq::empty()
        },
        Some((t, e, d)) => {
            lemma_step_advances(s, white, alnum, k, depth);
            let j = if depth == 0 { skip_white(s, white, k) } else { k };
            lemma_token_at_text(s, alnum, j, depth);
            lemma_token_at_advances(s, alnum, j, depth);
            lemma_token_at_name_end(s, alnum, j, depth);
            let rest = tokens_from(s, white, alnum, e, d);
            let rest_ends = lemma_tokens_from_verbatim(s, white, alnum, e, d);
            let ends = seq![e] + rest_ends;
            assert(toks == seq![t] + rest);
            assert forall|m: int| #![trigger toks[m]] 0 <= m < toks.len() implies {
                let start = ends[m] - source_text(toks[m].kind).len();
                let prev = if m == 0 { k } else { ends[m - 1] };
                &&& prev <= start < ends[m] <= s.len()
                &&& s.subrange(start, ends[m]) == source_text(toks[m].kind)
                &&& (forall|x: int| prev <= x < start ==> white[x])
                &&& toks[m].span_start == byte_len(s.take(ends[m]))
                &&& toks[m].span_end == byte_len(s)
            } by {
                if m == 0 {
                    assert(toks[0] == t);
                } else {
                    assert(toks[m] == rest[m - 1]);
                    assert(ends[m] == rest_ends[m - 1]);
                    assert(ends[m - 1] == if m - 1 == 0 { e } else { rest_ends[m - 2] });
                }
            }
            if rest.len() > 0 {
                assert(ends.last() == rest_ends.last());
            }
            assert forall|m: int| 0 <= m < toks.len() implies names_end_at(s, alnum, #[trigger] toks[m].kind, ends[m]) by {
                if m > 0 {
                    assert(toks[m] == rest[m - 1]);
                    assert(ends[m] == rest_ends[m - 1]);
                }
            }
            ends
        },
    }
}

/// A source text is its tokens separated by whitespace: each token is read
/// verbatim from the source, in order, and only whitespace is left out.
pub proof fn law_tokens_read_verbatim(s: Seq<char>, white: Seq<bool>, alnum: Seq<bool>)
    ensures
        exists|ends: Seq<int>| read_verbatim(s, white, spec_tokenize(s, white, alnum), ends, 0),
{
    let ends = lemma_tokens_from_verbatim(s, white, alnum, 0, 0);
    assert(read_verbatim(s, white, spec_tokenize(s, white, alnum), ends, 0));
}

/// Names are read whole: every identifier and every variable token takes
/// all the name characters (alphanumeric or `_`) that follow its start, so
/// the character after it, if any, is not one.
pub proof fn law_names_read_whole(s: Seq<char>, white: Seq<bool>, alnum: Seq<bool>)
    ensures
        exists|ends: Seq<int>| {
            &&& read_verbatim(s, white, spec_tokenize(s, white, alnum), ends, 0)
            &&& forall|m: int| 0 <= m < spec_tokenize(s, white, alnum).len()
                && (#[trigger] spec_tokenize(s, white, alnum)[m].kind is Ident
                    || spec_tokenize(s, white, alnum)[m].kind is Variable)
                && ends[m] < s.len() ==> !(alnum[ends[m]] || s[ends[m]] == '_')
        },
{
    let toks = spec_tokenize(s, white, alnum);
    let ends = lemma_tokens_from_verbatim(s, white, alnum, 0, 0);
    assert forall|m: int| 0 <= m < toks.len() && (#[trigger] toks[m].kind is Ident || toks[m].kind is Variable)
        && ends[m] < s.len() implies !(alnum[ends[m]] || s[ends[m]] == '_') by {
        assert(names_end_at(s, alnum, toks[m].kind, ends[m]));
    }
}

/// Inside a block nothing is skipped: the next token starts at the very
/// next character, whatever that character is.
pub proof fn law_nothing_skipped_inside_blocks(s: Seq<char>, white: Seq<bool>, alnum: Seq<bool>, k: int, depth: nat)
    requires
        depth > 0,
        0 <= k < s.len(),
    ensures
        step(s, white, alnum, k, depth) matches Some((t, e, _))
            && s.subrange(k, e) == source_text(t.kind),
{
    lemma_token_at_text(s, alnum, k, depth);
}

/// The source texts of `toks`, one after the other.
pub open spec fn spelled(toks: Seq<SpecToken>) -> Seq<char>
    decreases toks.len(),
{
    if toks.len() == 0 {
        Seq::empty()
    } else {
        source_text(toks[0].kind) + spelled(toks.drop_first())
    }
}

/// The characters of `s` from position `k` on whose `keep` flag is set.
pub open spec fn kept_from(s: Seq<char>, keep: Seq<bool>, k: int) -> Seq<char>
    decreases s.len() - k,
{
    if k < 0 || k >= s.len() {
        Seq::empty()
    } else if keep[k] {
        seq![s[k]] + kept_from(s, keep, k + 1)
    } else {
        kept_from(s, keep, k + 1)
    }
}

proof fn lemma_spelled_cons(t: SpecToken, rest: Seq<SpecToken>)
    ensures
        spelled(seq![t] + rest) == source_text(t.kind) + spelled(rest),
{
    assert((seq![t] + rest).drop_first() =~= rest);
}

/// Only the flags from `k` on count.
proof fn lemma_kept_from_agree(s: Seq<char>, a: Seq<bool>, b: Seq<bool>, k: int)
    requires
        0 <= k,
        forall|j: int| k <= j < s.len() ==> a[j] == b[j],
    ensures
        kept_from(s, a, k) == kept_from(s, b, k),
    decreases s.len() - k,
{
    if k < s.len() {
        lemma_kept_from_agree(s, a, b, k + 1);
    }
}

/// Positions not kept from `k` to `j` add nothing.
proof fn lemma_kept_from_skip(s: Seq<char>, keep: Seq<bool>, k: int, j: int)
    requires
        0 <= k <= j <= s.len(),
        forall|x: int| k <= x < j ==> !keep[x],
    ensures
        kept_from(s, keep, k) == kept_from(s, keep, j),
    decreases j - k,
{
    if k < j {
        lemma_kept_from_skip(s, keep, k + 1, j);
    }
}

/// Positions kept from `k` to `j` add their characters.
proof fn lemma_kept_from_take(s: Seq<char>, keep: Seq<bool>, k: int, j: int)
    requires
        0 <= k <= j <= s.len(),
        forall|x: int| k <= x < j ==> keep[x],
    ensures
        kept_from(s, keep, k) == s.subrange(k, j) + kept_from(s, keep, j),
    decreases j - k,
{
    if k < j {
        lemma_kept_from_take(s, keep, k + 1, j);
        assert(s.subrange(k, j) =~= seq![s[k]] + s.subrange(k + 1, j));
        assert(seq![s[k]] + (s.subrange(k + 1, j) + kept_from(s, keep, j))
            =~= (seq![s[k]] + s.subrange(k + 1, j)) + kept_from(s, keep, j));
    } else {
        assert(s.subrange(k, j) + kept_from(s, keep, j) =~= kept_from(s, keep, j));
    }
}

proof fn lemma_tokens_from_spelled(s: Seq<char>, white: Seq<bool>, alnum: Seq<bool>, k: int, depth: nat) -> (keep: Seq<bool>)
    requires
        0 <= k <= s.len(),
    ensures
        keep.len() == s.len(),
        forall|j: int| k <= j < s.len() && !keep[j] ==> white[j],
        spelled(tokens_from(s, white, alnum, k, depth)) == kept_from(s, keep, k),
    decreases s.len() - k,
{
    lemma_skip_white_bounds(s, white, k);
    let toks = tokens_from(s, white, alnum, k, depth);
    match step(s, white, alnum, k, depth) {
        None => {
            let keep = Seq::new(s.len(), |x: int| false);
            lemma_kept_from_skip(s, keep, k, s.len() as int);
            assert(toks =~= Seq::<SpecToken>::empty());
            keep
        },
        Some((t, e, d)) => {
            lemma_step_advances(s, white, alnum, k, depth);
            let j = if depth == 0 { skip_white(s, white, k) } else { k };
            lemma_token_at_text(s, alnum, j, depth);
            lemma_token_at_advances(s, alnum, j, depth);
            let rest = tokens_from(s, white, alnum, e, d);
            let later = lemma_tokens_from_spelled(s, white, alnum, e, d);
            let keep = Seq::new(s.len(), |x: int| if x < j { false } else if x < e { true } else { later[x] });
            assert(toks == seq![t] + rest);
            lemma_spelled_cons(t, rest);
            lemma_kept_from_skip(s, keep, k, j);
            lemma_kept_from_take(s, keep, j, e);
            lemma_kept_from_agree(s, keep, later, e);
            keep
        },
    }
}

/// Spelling out the tokens gives back the source with some whitespace
/// left out and nothing else changed; a source without whitespace is
/// spelled out exactly.
pub proof fn law_tokens_spell_source(s: Seq<char>, white: Seq<bool>, alnum: Seq<bool>)
    requires
        white.len() == s.len(),
    ensures
        exists|keep: Seq<bool>| {
            &&& keep.len() == s.len()
            &&& forall|j: int| 0 <= j < s.len() && !#[trigger] keep[j] ==> white[j]
            &&& spelled(spec_tokenize(s, white, alnum)) == kept_from(s, keep, 0)
        },
        (forall|j: int| 0 <= j < s.len() ==> !#[trigger] white[j]) ==> spelled(spec_tokenize(s, white, alnum)) == s,
{
    let keep = lemma_tokens_from_spelled(s, white, alnum, 0, 0);
    if forall|j: int| 0 <= j < s.len() ==> !#[trigger] white[j] {
        assert forall|x: int| 0 <= x < s.len() implies keep[x] by {
            if !keep[x] {
                assert(white[x]);
            }
        }
        lemma_kept_from_take(s, keep, 0, s.len() as int);
        assert(s.subrange(0, s.len() as int) =~= s);
        assert(kept_from(s, keep, s.len() as int) =~= Seq::<char>::empty());
        assert(s + Seq::<char>::empty() =~= s);
    }
}

proof fn lemma_block_body_spelled(s: Seq<char>, white: Seq<bool>, alnum: Seq<bool>, k: int, depth: nat)
    requires
        depth > 0,
        2 <= k <= s.len() - 2,
        s[s.len() - 2] == '}',
        s[s.len() - 1] == '}',
        forall|j: int| 0 <= j < s.len() - 2 ==> s[j] != '}',
        forall|j: int| 2 <= j < s.len() - 2 ==> s[j] != '{',
        forall|j: int| 0 <= j < s.len() && #[trigger] s[j] == '}' ==> !alnum[j],
        alnum.len() == s.len(),
    ensures
        tokens_from(s, white, alnum, k, depth).len() > 0,
        tokens_from(s, white, alnum, k, depth).last().kind == SpecTokenKind::BlockClose,
        spelled(tokens_from(s, white, alnum, k, depth)) == s.subrange(k, s.len() as int),
    decreases s.len() - k,
{
    let n = s.len() as int;
    let toks = tokens_from(s, white, alnum, k, depth);
    let (t, e, d) = step(s, white, alnum, k, depth)->Some_0;
    lemma_token_at_text(s, alnum, k, depth);
    lemma_token_at_advances(s, alnum, k, depth);
    let rest = tokens_from(s, white, alnum, e, d);
    assert(toks == seq![t] + rest);
    lemma_spelled_cons(t, rest);
    if k == n - 2 {
        assert(closes_block(s, k));
        assert(e == n);
        lemma_skip_white_bounds(s, white, n);
        assert(rest =~= Seq::<SpecToken>::empty());
        assert(s.subrange(k, n) + Seq::<char>::empty() =~= s.subrange(k, n));
    } else {
        assert(!opens_block(s, k));
        assert(!closes_block(s, k));
        assert(is_text_stop(s, n - 2));
        assert(!is_ident_char(s, alnum, n - 2));
        lemma_text_end_bounds(s, k);
        lemma_ident_end_bounds(s, alnum, k);
        lemma_ident_end_bounds(s, alnum, k + 1);
        assert(e <= n - 2);
        lemma_block_body_spelled(s, white, alnum, e, d);
        assert(toks.last() == rest.last());
        assert(s.subrange(k, e) + s.subrange(e, n) =~= s.subrange(k, n));
    }
}

/// A block `{{ body }}` whose body holds no brace is read back in full:
/// its tokens start with `{{`, end with `}}` and spell out the source
/// exactly, whitespace included. (The braces must not be classed as
/// alphanumeric, as `char` does not class them.)
pub proof fn law_block_read_in_full(body: Seq<char>, alnum: Seq<bool>)
    requires
        forall|j: int| 0 <= j < body.len() ==> #[trigger] body[j] != '{' && body[j] != '}',
        alnum.len() == body.len() + 4,
        forall|j: int| 0 <= j < body.len() + 4 && (seq!['{', '{'] + body + seq!['}', '}'])[j] == '}' ==> !#[trigger] alnum[j],
    ensures
        ({
            let src = seq!['{', '{'] + body + seq!['}', '}'];
            let toks = spec_tokenize(src, white_classes_of(src), alnum);
            &&& toks.len() >= 2
            &&& toks[0].kind == SpecTokenKind::BlockOpen
            &&& toks.last().kind == SpecTokenKind::BlockClose
            &&& spelled(toks) == src
        }),
{
    let src = seq!['{', '{'] + body + seq!['}', '}'];
    let white = white_classes_of(src);
    let n = src.len() as int;
    assert forall|j: int| 0 <= j < n - 2 implies src[j] != '}' by {
        if j >= 2 {
            assert(src[j] == body[j - 2]);
        }
    }
    assert forall|j: int| 2 <= j < n - 2 implies src[j] != '{' by {
        assert(src[j] == body[j - 2]);
    }
    assert(src[0] == '{' && src[1] == '{' && src[n - 2] == '}' && src[n - 1] == '}');
    assert(!white[0]);
    let toks = spec_tokenize(src, white, alnum);
    let (t, e, d) = step(src, white, alnum, 0, 0)->Some_0;
    assert(opens_block(src, 0));
    assert(e == 2 && d == 1);
    let rest = tokens_from(src, white, alnum, 2, 1);
    assert(toks == seq![t] + rest);
    lemma_spelled_cons(t, rest);
    lemma_block_body_spelled(src, white, alnum, 2, 1);
    assert(toks.last() == rest.last());
    assert(source_text(t.kind) + src.subrange(2, n) =~= src);
}

/// A run without braces inside a block is spelled out whole, up to the
/// brace pair that ends it.
proof fn lemma_run_spelled(s: Seq<char>, white: Seq<bool>, alnum: Seq<bool>, k: int, m: int, depth: nat)
    requires
        depth > 0,
        0 <= k <= m,
        m + 1 < s.len(),
        opens_block(s, m) || closes_block(s, m),
        alnum.len() == s.len(),
        forall|j: int| k <= j < m ==> #[trigger] s[j] != '{' && s[j] != '}',
        forall|j: int| 0 <= j < s.len() && (#[trigger] s[j] == '{' || s[j] == '}') ==> !alnum[j],
    ensures
        spelled(tokens_from(s, white, alnum, k, depth)) == s.subrange(k, m) + spelled(tokens_from(s, white, alnum, m, depth)),
    decreases m - k,
{
    if k == m {
        assert(s.subrange(k, m) + spelled(tokens_from(s, white, alnum, m, depth))
            =~= spelled(tokens_from(s, white, alnum, m, depth)));
    } else {
        let (t, e, d) = step(s, white, alnum, k, depth)->Some_0;
        lemma_token_at_text(s, alnum, k, depth);
        lemma_token_at_advances(s, alnum, k, depth);
        let rest = tokens_from(s, white, alnum, e, d);
        assert(tokens_from(s, white, alnum, k, depth) == seq![t] + rest);
        lemma_spelled_cons(t, rest);
        assert(!opens_block(s, k) && !closes_block(s, k));
        assert(is_text_stop(s, m));
        assert(!is_ident_char(s, alnum, m));
        lemma_text_end_bounds(s, k);
        lemma_ident_end_bounds(s, alnum, k);
        lemma_ident_end_bounds(s, alnum, k + 1);
        assert(e <= m);
        assert(d == depth);
        lemma_run_spelled(s, white, alnum, e, m, depth);
        assert(s.subrange(k, e) + (s.subrange(e, m) + spelled(tokens_from(s, white, alnum, m, depth)))
            =~= s.subrange(k, m) + spelled(tokens_from(s, white, alnum, m, depth)));
    }
}

/// Reading a brace pair at `m`: `{{` opens one more block, `}}` closes one.
proof fn lemma_brace_spelled(s: Seq<char>, white: Seq<bool>, alnum: Seq<bool>, m: int, depth: nat)
    requires
        0 <= m,
        m + 1 < s.len(),
        opens_block(s, m) || closes_block(s, m),
        depth > 0 || !white[m],
    ensures
        spelled(tokens_from(s, white, alnum, m, depth)) == s.subrange(m, m + 2) + spelled(tokens_from(
            s,
            white,
            alnum,
            m + 2,
            if opens_block(s, m) { depth + 1 } else if depth == 0 { 0 } else { (depth - 1) as nat },
        )),
{
    let (t, e, d) = step(s, white, alnum, m, depth)->Some_0;
    lemma_token_at_text(s, alnum, m, depth);
    let rest = tokens_from(s, white, alnum, e, d);
    assert(tokens_from(s, white, alnum, m, depth) == seq![t] + rest);
    lemma_spelled_cons(t, rest);
}

proof fn lemma_nested_spelled(src: Seq<char>, white: Seq<bool>, alnum: Seq<bool>, p: int, q: int, r: int)
    requires
        2 <= p,
        p + 2 <= q,
        q + 2 <= r,
        r + 2 == src.len(),
        opens_block(src, 0),
        opens_block(src, p),
        closes_block(src, q),
        closes_block(src, r),
        !white[0],
        alnum.len() == src.len(),
        forall|j: int| 2 <= j < p ==> #[trigger] src[j] != '{' && src[j] != '}',
        forall|j: int| p + 2 <= j < q ==> #[trigger] src[j] != '{' && src[j] != '}',
        forall|j: int| q + 2 <= j < r ==> #[trigger] src[j] != '{' && src[j] != '}',
        forall|j: int| 0 <= j < src.len() && (#[trigger] src[j] == '{' || src[j] == '}') ==> !alnum[j],
    ensures
        spelled(tokens_from(src, white, alnum, 0, 0)) == src,
{
    let n = r + 2;
    assert(!opens_block(src, q));
    assert(!opens_block(src, r));
    lemma_brace_spelled(src, white, alnum, 0, 0);
    lemma_run_spelled(src, white, alnum, 2, p, 1);
    lemma_brace_spelled(src, white, alnum, p, 1);
    lemma_run_spelled(src, white, alnum, p + 2, q, 2);
    lemma_brace_spelled(src, white, alnum, q, 2);
    lemma_run_spelled(src, white, alnum, q + 2, r, 1);
    lemma_brace_spelled(src, white, alnum, r, 1);
    lemma_skip_white_bounds(src, white, n);
    assert(tokens_from(src, white, alnum, n, 0) =~= Seq::<SpecToken>::empty());
    assert(spelled(tokens_from(src, white, alnum, n, 0)) =~= Seq::<char>::empty());
    assert(src.subrange(0, 2) + (src.subrange(2, p) + (src.subrange(p, p + 2) + (src.subrange(p + 2, q)
        + (src.subrange(q, q + 2) + (src.subrange(q + 2, r) + (src.subrange(r, n) + Seq::<char>::empty())))))) =~= src);
}

/// Block depth counts the open blocks: in a block nested in a block, the
/// text after the inner `}}` is still inside the outer block, so nothing
/// of it is skipped. The tokens of `{{ a {{ b }} c }}`, where `a`, `b` and
/// `c` hold no brace, spell out the source exactly, whitespace included.
/// (The braces must not be classed as alphanumeric, as `char` does not
/// class them.)
pub proof fn law_nested_block_read_in_full(a: Seq<char>, b: Seq<char>, c: Seq<char>, alnum: Seq<bool>)
    requires
        forall|j: int| 0 <= j < a.len() ==> #[trigger] a[j] != '{' && a[j] != '}',
        forall|j: int| 0 <= j < b.len() ==> #[trigger] b[j] != '{' && b[j] != '}',
        forall|j: int| 0 <= j < c.len() ==> #[trigger] c[j] != '{' && c[j] != '}',
        alnum.len() == a.len() + b.len() + c.len() + 8,
        forall|j: int| 0 <= j < alnum.len() && ((seq!['{', '{'] + a + seq!['{', '{'] + b + seq!['}', '}'] + c + seq!['}', '}'])[j] == '{'
            || (seq!['{', '{'] + a + seq!['{', '{'] + b + seq!['}', '}'] + c + seq!['}', '}'])[j] == '}') ==> !#[trigger] alnum[j],
    ensures
        ({
            let src = seq!['{', '{'] + a + seq!['{', '{'] + b + seq!['}', '}'] + c + seq!['}', '}'];
            spelled(spec_tokenize(src, white_classes_of(src), alnum)) == src
        }),
{
    let src = seq!['{', '{'] + a + seq!['{', '{'] + b + seq!['}', '}'] + c + seq!['}', '}'];
    let white = white_classes_of(src);
    let p = a.len() as int + 2;
    let q = p + 2 + b.len() as int;
    let r = q + 2 + c.len() as int;
    assert(src.len() == r + 2);
    assert forall|j: int| 2 <= j < p implies #[trigger] src[j] != '{' && src[j] != '}' by {
        assert(src[j] == a[j - 2]);
    }
    assert forall|j: int| p + 2 <= j < q implies #[trigger] src[j] != '{' && src[j] != '}' by {
        assert(src[j] == b[j - p - 2]);
    }
    assert forall|j: int| q + 2 <= j < r implies #[trigger] src[j] != '{' && src[j] != '}' by {
        assert(src[j] == c[j - q - 2]);
    }
    assert(src[0] == '{' && src[1] == '{');
    assert(src[p] == '{' && src[p + 1] == '{');
    assert(src[q] == '}' && src[q + 1] == '}');
    assert(src[r] == '}' && src[r + 1] == '}');
    assert(!white[0]);
    lemma_nested_spelled(src, white, alnum, p, q, r);
}

/// A character that may stand in an identifier or a variable name.
pub open spec fn is_name_char(c: char) -> bool {
    unicode_alphanumeric(c) || c == '_'
}

/// What a token's text looks like: an identifier is a non-empty run of
/// name characters, a variable name a run of them, and a text is non-empty
/// and holds none of `@ $ ( ) ,` and no `{{` or `}}`.
pub open spec fn token_shaped(k: SpecTokenKind) -> bool {
    match k {
        SpecTokenKind::Ident(n) => n.len() > 0 && forall|j: int| 0 <= j < n.len() ==> is_name_char(#[trigger] n[j]),
        SpecTokenKind::Variable(n) => forall|j: int| 0 <= j < n.len() ==> is_name_char(#[trigger] n[j]),
        SpecTokenKind::Text(t) => t.len() > 0 && forall|j: int| 0 <= j < t.len() ==> {
            &&& #[trigger] t[j] != '@'
            &&& t[j] != '$'
            &&& t[j] != '('
            &&& t[j] != ')'
            &&& t[j] != ','
            &&& !(j + 1 < t.len() && t[j] == '{' && t[j + 1] == '{')
            &&& !(j + 1 < t.len() && t[j] == '}' && t[j + 1] == '}')
        },
        _ => true,
    }
}

proof fn lemma_token_at_shaped(s: Seq<char>, k: int, depth: nat)
    requires
        0 <= k < s.len(),
    ensures
        token_shaped(token_at(s, alnum_classes_of(s), k, depth).0),
{
    let a = alnum_classes_of(s);
    lemma_token_at_advances(s, a, k, depth);
    lemma_ident_end_bounds(s, a, k + 1);
    lemma_ident_end_bounds(s, a, k);
    lemma_text_end_bounds(s, k);
    let (kind, e, _) = token_at(s, a, k, depth);
    match kind {
        SpecTokenKind::Ident(n) => {
            assert forall|j: int| 0 <= j < n.len() implies is_name_char(#[trigger] n[j]) by {
                assert(n[j] == s[k + j]);
                assert(is_ident_char(s, a, k + j));
            }
        },
        SpecTokenKind::Variable(n) => {
            assert forall|j: int| 0 <= j < n.len() implies is_name_char(#[trigger] n[j]) by {
                assert(n[j] == s[k + 1 + j]);
                assert(is_ident_char(s, a, k + 1 + j));
            }
        },
        SpecTokenKind::Text(t) => {
            assert forall|j: int| 0 <= j < t.len() implies {
                &&& #[trigger] t[j] != '@'
                &&& t[j] != '$'
                &&& t[j] != '('
                &&& t[j] != ')'
                &&& t[j] != ','
                &&& !(j + 1 < t.len() && t[j] == '{' && t[j + 1] == '{')
                &&& !(j + 1 < t.len() && t[j] == '}' && t[j + 1] == '}')
            } by {
                assert(t[j] == s[k + j]);
                assert(!is_text_stop(s, k + j));
                if j + 1 < t.len() {
                    assert(t[j + 1] == s[k + j + 1]);
                }
            }
        },
        _ => {},
    }
}

proof fn lemma_tokens_from_shaped(s: Seq<char>, white: Seq<bool>, k: int, depth: nat)
    requires
        0 <= k <= s.len(),
    ensures
        tokens_from(s, white, alnum_classes_of(s), k, depth).len() <= s.len() - k,
        forall|m: int| 0 <= m < tokens_from(s, white, alnum_classes_of(s), k, depth).len()
            ==> token_shaped(#[trigger] tokens_from(s, white, alnum_classes_of(s), k, depth)[m].kind),
    decreases s.len() - k,
{
    let a = alnum_classes_of(s);
    lemma_skip_white_bounds(s, white, k);
    let toks = tokens_from(s, white, a, k, depth);
    match step(s, white, a, k, depth) {
        None => {},
        Some((t, e, d)) => {
            lemma_step_advances(s, white, a, k, depth);
            let j = if depth == 0 { skip_white(s, white, k) } else { k };
            lemma_token_at_shaped(s, j, depth);
            lemma_tokens_from_shaped(s, white, e, d);
            let rest = tokens_from(s, white, a, e, d);
            assert(toks == seq![t] + rest);
            assert forall|m: int| 0 <= m < toks.len() implies token_shaped(#[trigger] toks[m].kind) by {
                if m > 0 {
                    assert(toks[m] == rest[m - 1]);
                }
            }
        },
    }
}

/// With the characters classed as `char` classes them, a source of `n`
/// characters gives at most `n` tokens, and every token has the shape of
/// its kind.
pub proof fn law_token_shapes(s: Seq<char>, white: Seq<bool>)
    ensures
        spec_tokenize(s, white, alnum_classes_of(s)).len() <= s.len(),
        forall|m: int| 0 <= m < spec_tokenize(s, white, alnum_classes_of(s)).len()
            ==> token_shaped(#[trigger] spec_tokenize(s, white, alnum_classes_of(s))[m].kind),
{
    lemma_tokens_from_shaped(s, white, 0, 0);
}

/// The tokens of a whole source text, given the class of each character.
pub open spec fn spec_tokenize(s: Seq<char>, white: Seq<bool>, alnum: Seq<bool>) -> Seq<SpecToken> {
    tokens_from(s, white, alnum, 0, 0)
}


// ---------------------------------------------------------------------------
// The tokenizer itself.

/// Reads tokens from a source text, one at a time.
pub struct Tokenizer<'src> {
    src: &'src str,
    src_len: usize,
    chars: Vec<char>,
    white: Vec<bool>,
    alnum: Vec<bool>,
    cpos: usize,
    pos: usize,
    block_depth: usize,
}

impl<'src> Tokenizer<'src> {
    /// The tokenizer's internal invariant.
    pub closed spec fn wf(&self) -> bool {
        &&& self.chars@ == self.src@
        &&& self.white@.len() == self.src@.len()
        &&& self.alnum@.len() == self.src@.len()
        &&& self.src_len == byte_len(self.src@)
        &&& self.cpos <= self.src@.len()
        &&& self.pos == byte_len(self.src@.take(self.cpos as int))
        &&& self.block_depth <= self.cpos
    }

    pub closed spec fn source(&self) -> Seq<char> {
        self.src@
    }

    pub closed spec fn white_classes(&self) -> Seq<bool> {
        self.white@
    }

    pub closed spec fn alnum_classes(&self) -> Seq<bool> {
        self.alnum@
    }

    /// The position, in characters, of the next character to read.
    pub closed spec fn position(&self) -> int {
        self.cpos as int
    }

    /// How many `{{` are open.
    pub closed spec fn depth(&self) -> nat {
        self.block_depth as nat
    }

    /// What a well-formed tokenizer guarantees of its position and classes.
    pub proof fn lemma_wf_bounds(&self)
        requires
            self.wf(),
        ensures
            0 <= self.position() <= self.source().len(),
            self.white_classes().len() == self.source().len(),
            self.alnum_classes().len() == self.source().len(),
    {
    }

    /// A tokenizer at the start of `src`; `white[i]` and `alnum[i]` say
    /// whether the `i`-th character is whitespace and alphanumeric.
    pub fn with_classes(src: &'src str, white: Vec<bool>, alnum: Vec<bool>) -> (t: Self)
        requires
            white@.len() == src@.len(),
            alnum@.len() == src@.len(),
        ensures
            t.wf(),
            t.source() == src@,
            t.white_classes() == white@,
            t.alnum_classes() == alnum@,
            t.position() == 0,
            t.depth() == 0,
    {
        let chars = chars_of(src);
        let src_len = byte_length(src);
        proof {
            assert(src@.take(0) =~= Seq::<char>::empty());
            assert(vstd::utf8::encode_utf8(Seq::<char>::empty()) =~= Seq::<u8>::empty());
        }
        Tokenizer { src, src_len, chars, white, alnum, cpos: 0, pos: 0, block_depth: 0 }
    }

    /// The span that a token ending here gets: from the current byte offset
    /// to the end of the source.
    pub fn span(&self) -> (r: Range<usize>)
        requires
            self.wf(),
        ensures
            r.start == byte_len(self.source().take(self.position())),
            r.end == byte_len(self.source()),
    {
        let start = self.pos;
        let end = self.src_len;
        start..end
    }

    /// The end of the run of identifier characters from `k`, with its byte offset.
    fn scan_ident(&self, k: usize, b: usize) -> (r: (usize, usize))
        requires
            self.wf(),
            k <= self.src@.len(),
            b == byte_len(self.src@.take(k as int)),
        ensures
            r.0 == ident_end(self.src@, self.alnum@, k as int),
            r.1 == byte_len(self.src@.take(r.0 as int)),
    {
        let ghost s = self.src@;
        let n = self.chars.len();
        let mut e = k;
        let mut eb = b;
        while e < n && (self.alnum[e] || self.chars[e] == '_')
            invariant
                self.wf(),
                s == self.src@,
                n == s.len(),
                k <= e <= n,
                ident_end(s, self.alnum@, e as int) == ident_end(s, self.alnum@, k as int),
                eb == byte_len(s.take(e as int)),
            decreases n - e,
        {
            proof {
                lemma_byte_len_take_step(s, e as int);
                lemma_byte_len_take_mono(s, e + 1, n as int);
            }
            eb = eb + utf8_width(self.chars[e]);
            e = e + 1;
        }
        (e, eb)
    }

    /// Whether a run of text stops at position `e`.
    fn stops_text(&self, e: usize) -> (r: bool)
        requires
            self.wf(),
            e < self.src@.len(),
        ensures
            r == is_text_stop(self.src@, e as int),
    {
        let n = self.chars.len();
        let c = self.chars[e];
        c == '@' || c == '$' || c == '(' || c == ')' || c == ','
            || ((c == '{' || c == '}') && e + 1 < n && self.chars[e + 1] == c)
    }

    /// The end of the run of text from `k`, with its byte offset.
    fn scan_text(&self, k: usize, b: usize) -> (r: (usize, usize))
        requires
            self.wf(),
            k <= self.src@.len(),
            b == byte_len(self.src@.take(k as int)),
        ensures
            r.0 == text_end(self.src@, k as int),
            r.1 == byte_len(self.src@.take(r.0 as int)),
    {
        let ghost s = self.src@;
        let n = self.chars.len();
        let mut e = k;
        let mut eb = b;
        while e < n && !self.stops_text(e)
            invariant
                self.wf(),
                s == self.src@,
                n == s.len(),
                k <= e <= n,
                text_end(s, e as int) == text_end(s, k as int),
                eb == byte_len(s.take(e as int)),
            decreases n - e,
        {
            proof {
                lemma_byte_len_take_step(s, e as int);
                lemma_byte_len_take_mono(s, e + 1, n as int);
            }
            eb = eb + utf8_width(self.chars[e]);
            e = e + 1;
        }
        (e, eb)
    }

    /// Moves past whitespace.
    fn skip_whitespace(&mut self)
        requires
            old(self).wf(),
        ensures
            final(self).wf(),
            final(self).src == old(self).src,
            final(self).white == old(self).white,
            final(self).alnum == old(self).alnum,
            final(self).block_depth == old(self).block_depth,
            final(self).cpos == skip_white(old(self).src@, old(self).white@, old(self).cpos as int),
    {
        let ghost s = self.src@;
        let ghost k = self.cpos as int;
        let n = self.chars.len();
        while self.cpos < n && self.white[self.cpos]
            invariant
                self.wf(),
                s == self.src@,
                self.src == old(self).src,
                self.white == old(self).white,
                self.alnum == old(self).alnum,
                self.block_depth == old(self).block_depth,
                n == s.len(),
                k <= self.cpos,
                skip_white(s, self.white@, self.cpos as int) == skip_white(s, self.white@, k),
            decreases n - self.cpos,
        {
            proof {
                lemma_byte_len_take_step(s, self.cpos as int);
                lemma_byte_len_take_mono(s, self.cpos + 1, n as int);
            }
            self.pos = self.pos + utf8_width(self.chars[self.cpos]);
            self.cpos = self.cpos + 1;
        }
    }

    /// The next token, or `None` when only whitespace outside blocks is left.
    pub fn next(&mut self) -> (res: Option<Token<'src>>)
        requires
            old(self).wf(),
        ensures
            final(self).wf(),
            final(self).source() == old(self).source(),
            final(self).white_classes() == old(self).white_classes(),
            final(self).alnum_classes() == old(self).alnum_classes(),
            match step(old(self).source(), old(self).white_classes(), old(self).alnum_classes(),
                old(self).position(), old(self).depth()) {
                None => res is None && final(self).depth() == old(self).depth()
                    && final(self).position() == if old(self).depth() == 0 {
                        skip_white(old(self).source(), old(self).white_classes(), old(self).position())
                    } else {
                        old(self).position()
                    },
                Some((t, e, d)) => res matches Some(tok) && tok@ == t
                    && final(self).position() == e && final(self).depth() == d,
            },
    {
        let ghost s = self.src@;
        let ghost a = self.alnum@;
        // Whitespace is skipped only outside of a `{{ ... }}` block.
        if self.block_depth == 0 {
            self.skip_whitespace();
        }
        let n = self.chars.len();
        if self.cpos >= n {
            return None;
        }
        let k = self.cpos;
        let c = self.chars[k];
        proof {
            lemma_byte_len_take_mono(s, k as int, n as int);
        }
        if c == '{' && k + 1 < n && self.chars[k + 1] == '{' {
            proof {
                lemma_byte_len_take_step(s, k as int);
                lemma_byte_len_take_step(s, k + 1);
                lemma_byte_len_take_mono(s, k + 2, n as int);
            }
            self.pos = self.pos + utf8_width(c) + utf8_width(self.chars[k + 1]);
            self.cpos = k + 2;
            self.block_depth = self.block_depth + 1;
            return Some(Token::new(TokenKind::BlockOpen, self.span()));
        }
        if c == '}' && k + 1 < n && self.chars[k + 1] == '}' {
            proof {
                lemma_byte_len_take_step(s, k as int);
                lemma_byte_len_take_step(s, k + 1);
                lemma_byte_len_take_mono(s, k + 2, n as int);
            }
            self.pos = self.pos + utf8_width(c) + utf8_width(self.chars[k + 1]);
            self.cpos = k + 2;
            self.block_depth = if self.block_depth == 0 { 0 } else { self.block_depth - 1 };
            return Some(Token::new(TokenKind::BlockClose, self.span()));
        }
        if c == '@' || c == '(' || c == ')' || c == ',' {
            proof {
                lemma_byte_len_take_step(s, k as int);
                lemma_byte_len_take_mono(s, k + 1, n as int);
            }
            self.pos = self.pos + utf8_width(c);
            self.cpos = k + 1;
            let kind = if c == '@' {
                TokenKind::At
            } else if c == '(' {
                TokenKind::ParenOpen
            } else if c == ')' {
                TokenKind::ParenClose
            } else {
                TokenKind::Comma
            };
            return Some(Token::new(kind, self.span()));
        }
        if c == '$' {
            proof {
                lemma_byte_len_take_step(s, k as int);
                lemma_byte_len_take_mono(s, k + 1, n as int);
            }
            let b1 = self.pos + utf8_width(c);
            let (e, eb) = self.scan_ident(k + 1, b1);
            proof {
                crate::token::lemma_ident_end_bounds(s, a, k + 1);
            }
            let name = slice_chars(self.src, b1, eb, Ghost(k + 1), Ghost(e as int));
            self.cpos = e;
            self.pos = eb;
            return Some(Token::new(TokenKind::Variable(name), self.span()));
        }
        if self.alnum[k] || c == '_' {
            let (e, eb) = self.scan_ident(k, self.pos);
            proof {
                crate::token::lemma_ident_end_bounds(s, a, k as int);
            }
            let ident = slice_chars(self.src, self.pos, eb, Ghost(k as int), Ghost(e as int));
            self.cpos = e;
            self.pos = eb;
            return Some(Token::new(TokenKind::Ident(ident), self.span()));
        }
        // Text runs until a character that starts another token.
        let (e, eb) = self.scan_text(k, self.pos);
        proof {
            crate::token::lemma_text_end_bounds(s, k as int);
            lemma_token_at_advances(s, a, k as int, self.block_depth as nat);
        }
        let text = slice_chars(self.src, self.pos, eb, Ghost(k as int), Ghost(e as int));
        self.cpos = e;
        self.pos = eb;
        Some(Token::new(TokenKind::Text(text), self.span()))
    }
}


/// The views of a sequence of tokens.
pub open spec fn views(toks: Seq<Token>) -> Seq<SpecToken> {
    toks.map_values(|t: Token| t@)
}

/// Splits `src` into tokens, given for each character whether it is
/// whitespace (`white`) and whether it is alphanumeric (`alnum`).
pub fn tokenize_with<'src>(src: &'src str, white: Vec<bool>, alnum: Vec<bool>) -> (toks: Vec<Token<'src>>)
    requires
        white@.len() == src@.len(),
        alnum@.len() == src@.len(),
    ensures
        views(toks@) == spec_tokenize(src@, white@, alnum@),
{
    let ghost s = src@;
    let ghost w = white@;
    let ghost a = alnum@;
    let mut tokenizer = Tokenizer::with_classes(src, white, alnum);
    let mut toks: Vec<Token<'src>> = Vec::new();
    loop
        invariant_except_break
            spec_tokenize(s, w, a) == views(toks@) + tokens_from(s, w, a, tokenizer.position(), tokenizer.depth()),
        invariant
            tokenizer.wf(),
            tokenizer.source() == s,
            tokenizer.white_classes() == w,
            tokenizer.alnum_classes() == a,
        ensures
            spec_tokenize(s, w, a) == views(toks@),
        decreases s.len() - tokenizer.position(),
    {
        let ghost k = tokenizer.position();
        let ghost d = tokenizer.depth();
        proof {
            lemma_step_advances(s, w, a, k, d);
        }
        match tokenizer.next() {
            None => {
                assert(tokens_from(s, w, a, k, d) =~= Seq::<SpecToken>::empty());
                assert(views(toks@) + tokens_from(s, w, a, k, d) =~= views(toks@));
                break;
            },
            Some(t) => {
                let ghost before = toks@;
                toks.push(t);
                assert(views(toks@) =~= views(before).push(t@));
                assert(views(toks@) + tokens_from(s, w, a, tokenizer.position(), tokenizer.depth())
                    =~= views(before) + tokens_from(s, w, a, k, d));
            },
        }
    }
    toks
}

/// Whether each character of `s` is whitespace.
pub open spec fn white_classes_of(s: Seq<char>) -> Seq<bool> {
    Seq::new(s.len(), |i: int| unicode_white_space(s[i]))
}

/// Whether each character of `s` is alphanumeric.
pub open spec fn alnum_classes_of(s: Seq<char>) -> Seq<bool> {
    Seq::new(s.len(), |i: int| unicode_alphanumeric(s[i]))
}

/// Splits `src` into tokens. Whitespace outside `{{ ... }}` blocks
/// separates tokens and is dropped; inside blocks it is part of the text.
pub fn tokenize<'src>(src: &'src str) -> (toks: Vec<Token<'src>>)
    ensures
        views(toks@) == spec_tokenize(src@, white_classes_of(src@), alnum_classes_of(src@)),
{
    let chars = chars_of(src);
    let mut white: Vec<bool> = Vec::new();
    let mut alnum: Vec<bool> = Vec::new();
    let n = chars.len();
    for i in 0..n
        invariant
            n == chars@.len(),
            chars@ == src@,
            white@ == white_classes_of(src@).take(i as int),
            alnum@ == alnum_classes_of(src@).take(i as int),
    {
        white.push(char_is_whitespace(chars[i]));
        alnum.push(char_is_alphanumeric(chars[i]));
        assert(white@ =~= white_classes_of(src@).take(i + 1));
        assert(alnum@ =~= alnum_classes_of(src@).take(i + 1));
    }
    assert(white@ =~= white_classes_of(src@));
    assert(alnum@ =~= alnum_classes_of(src@));
    tokenize_with(src, white, alnum)
}

} // verus!
