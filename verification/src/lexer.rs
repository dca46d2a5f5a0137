//! The lexer: it cuts the text of an expression into tokens, one at a time.

use crate::error::{ParseError, ParseErrorView};
use crate::pattern::{char_is_whitespace, find, is_whitespace, regex_find};
use crate::text::{
    check_decimal_literal, check_identifier, decimal, is_decimal_literal, is_identifier,
    push_decimal, same_text, split_at_boundary, split_first,
};
use vstd::prelude::*;
use vstd::std_specs::cmp::PartialEqSpecImpl;
use vstd::string::*;
use vstd::utf8::*;

verus! {

/// The regular expression of a numeric literal. Its sign never matches: `+`
/// and `-` are tokens of their own and are looked for first.
pub const NUMBER_PATTERN: &'static str = "^[+-]?\\d+(?:\\.\\d*)?(?:[eE]\\d+)?";

/// The regular expression of an identifier.
pub const IDENT_PATTERN: &'static str = "^[a-zA-Z]+";

/// Types of tokens.
#[derive(Clone, Copy, Debug)]
pub enum TokenType<'a> {
    /// A numeric literal, as it is written in the text.
    Number(&'a str),
    Ident(&'a str),
    OpSingle(char),
    End,
}

/// Token type with a text position number.
#[derive(Clone, Copy, Debug)]
pub struct Token<'a> {
    pub typ: TokenType<'a>,
    /// The number of characters of the text that come before the token.
    pub pos: u32,
}

/// A `TokenType` with its texts as sequences of characters.
pub enum TokenKind {
    Number(Seq<char>),
    Ident(Seq<char>),
    OpSingle(char),
    End,
}

/// A `Token` with its texts as sequences of characters.
pub struct TokenView {
    pub typ: TokenKind,
    pub pos: u32,
}

impl TokenView {
    /// Whether the token is one that the lexer gives: a numeric literal is a
    /// decimal literal, the name of an identifier is one or more letters, and
    /// a single character is one of those that are tokens by themselves.
    pub open spec fn well_formed(self) -> bool {
        match self.typ {
            TokenKind::Number(lit) => is_decimal_literal(lit),
            TokenKind::Ident(name) => is_identifier(name),
            TokenKind::OpSingle(ch) => is_single_op(ch),
            TokenKind::End => true,
        }
    }
}

impl<'a> View for TokenType<'a> {
    type V = TokenKind;

    open spec fn view(&self) -> TokenKind {
        match self {
            TokenType::Number(lit) => TokenKind::Number(lit@),
            TokenType::Ident(name) => TokenKind::Ident(name@),
            TokenType::OpSingle(ch) => TokenKind::OpSingle(*ch),
            TokenType::End => TokenKind::End,
        }
    }
}

impl<'a> View for Token<'a> {
    type V = TokenView;

    open spec fn view(&self) -> TokenView {
        TokenView { typ: self.typ@, pos: self.pos }
    }
}

impl<'a> TokenType<'a> {
    /// Decides whether two token types are the same, texts included.
    pub fn same(&self, other: &TokenType<'_>) -> (same: bool)
        ensures
            same == (self@ == other@),
    {
        match (self, other) {
            (TokenType::Number(a), TokenType::Number(b)) => same_text(a, b),
            (TokenType::Ident(a), TokenType::Ident(b)) => same_text(a, b),
            (TokenType::OpSingle(a), TokenType::OpSingle(b)) => *a == *b,
            (TokenType::End, TokenType::End) => true,
            _ => false,
        }
    }
}

impl<'a> PartialEq for TokenType<'a> {
    fn eq(&self, other: &Self) -> (same: bool) {
        self.same(other)
    }
}

impl<'a> PartialEqSpecImpl for TokenType<'a> {
    open spec fn obeys_eq_spec() -> bool {
        true
    }

    open spec fn eq_spec(&self, other: &Self) -> bool {
        self@ == other@
    }
}

/// Two tokens are equal where their types are, whatever their positions.
impl<'a> PartialEq for Token<'a> {
    fn eq(&self, other: &Self) -> (same: bool) {
        self.typ.same(&other.typ)
    }
}

impl<'a> PartialEqSpecImpl for Token<'a> {
    open spec fn obeys_eq_spec() -> bool {
        true
    }

    open spec fn eq_spec(&self, other: &Self) -> bool {
        self.typ@ == other.typ@
    }
}

/// A token is equal to a token type where its own type is.
impl<'a> PartialEq<TokenType<'a>> for Token<'a> {
    fn eq(&self, other: &TokenType<'a>) -> (same: bool) {
        self.typ.same(other)
    }
}

impl<'a> PartialEqSpecImpl<TokenType<'a>> for Token<'a> {
    open spec fn obeys_eq_spec() -> bool {
        true
    }

    open spec fn eq_spec(&self, other: &TokenType<'a>) -> bool {
        self.typ@ == other@
    }
}

impl<'a> PartialEq<Token<'a>> for TokenType<'a> {
    fn eq(&self, other: &Token<'a>) -> (same: bool) {
        self.same(&other.typ)
    }
}

impl<'a> PartialEqSpecImpl<Token<'a>> for TokenType<'a> {
    open spec fn obeys_eq_spec() -> bool {
        true
    }

    open spec fn eq_spec(&self, other: &Token<'a>) -> bool {
        self@ == other.typ@
    }
}

/// What a call of the lexer returns, with its texts as sequences of characters.
pub open spec fn lexed(r: Result<Token<'_>, ParseError>) -> Result<TokenView, ParseErrorView> {
    match r {
        Ok(token) => Ok(token@),
        Err(e) => Err(e@),
    }
}

/// Whether `c` is a token by itself.
pub open spec fn is_single_op(c: char) -> bool {
    c == '+' || c == '-' || c == '*' || c == '/' || c == '^' || c == '!' || c == '=' || c == '('
        || c == ')'
}

/// The number of whitespace characters that `text` starts with.
pub open spec fn leading_whitespace(text: Seq<char>) -> nat
    decreases text.len(),
{
    if text.len() > 0 && is_whitespace(text[0]) {
        1 + leading_whitespace(text.skip(1))
    } else {
        0
    }
}

/// The start of `text` that the regular expression `pattern` matches: what
/// the leftmost match covers, where that match starts with the first
/// character of `text`.
pub open spec fn matched_prefix(pattern: Seq<char>, text: Seq<char>) -> Option<Seq<char>> {
    span_prefix(text, regex_find(pattern, text))
}

/// The identifier that `text` starts with: what the pattern of an
/// identifier matches at the start of `text`, where that is an identifier.
pub open spec fn leading_identifier(text: Seq<char>) -> Option<Seq<char>> {
    match matched_prefix(IDENT_PATTERN@, text) {
        Some(name) => if is_identifier(name) {
            Some(name)
        } else {
            None
        },
        None => None,
    }
}

/// The message of the error for a character that starts no token.
pub open spec fn unexpected_char_message(c: char, pos: u32) -> Seq<char> {
    "Unexpected '"@.push(c) + "' at position "@ + decimal(pos as nat)
}

/// The message that a lexer gives on every call after one that failed with
/// the message `first`.
pub open spec fn repeated_message(first: Seq<char>) -> Seq<char> {
    "Errored previously: "@ + first
}

/// What a lexer knows between two calls.
pub struct LexerState {
    /// The text that is not yet consumed.
    pub rest: Seq<char>,
    /// The number of characters consumed.
    pub pos: u32,
    /// The message to repeat, once a call has failed.
    pub error: Option<Seq<char>>,
}

impl LexerState {
    /// The state of a lexer before its first call.
    pub open spec fn start(text: Seq<char>) -> LexerState {
        LexerState { rest: text, pos: 0, error: None }
    }

    /// Positions up to the end of the text fit the type of a position.
    pub open spec fn wf(self) -> bool {
        self.pos + self.rest.len() <= u32::MAX
    }

    /// The position just behind the last character of the text.
    pub open spec fn end_pos(self) -> int {
        self.pos + self.rest.len()
    }

    /// The state after `n` more characters are consumed.
    pub open spec fn advance(self, n: nat) -> LexerState {
        LexerState { rest: self.rest.skip(n as int), pos: (self.pos + n) as u32, error: self.error }
    }

    /// One scan of the text: the token found or the error, and the state that
    /// the scan leaves. Leading whitespace is consumed in any case. At the end
    /// of the text the token is `End`. A character that is a token by itself
    /// comes before the two patterns, and the numeric literal before the
    /// identifier. What the pattern of a numeric literal matches is a token
    /// where it is a decimal literal, and is reported as a literal without a
    /// value where it is not. A failed scan consumes nothing but the
    /// whitespace.
    pub open spec fn scan(self) -> (Result<TokenView, ParseErrorView>, LexerState) {
        let here = self.advance(leading_whitespace(self.rest));
        if here.rest.len() == 0 {
            (Ok(TokenView { typ: TokenKind::End, pos: here.pos }), here)
        } else if is_single_op(here.rest[0]) {
            (Ok(TokenView { typ: TokenKind::OpSingle(here.rest[0]), pos: here.pos }), here.advance(1))
        } else if let Some(lit) = matched_prefix(NUMBER_PATTERN@, here.rest) {
            if is_decimal_literal(lit) {
                (Ok(TokenView { typ: TokenKind::Number(lit), pos: here.pos }), here.advance(lit.len()))
            } else {
                (Err(ParseErrorView::Float(lit)), here)
            }
        } else if let Some(name) = leading_identifier(here.rest) {
            (Ok(TokenView { typ: TokenKind::Ident(name), pos: here.pos }), here.advance(name.len()))
        } else {
            (Err(ParseErrorView::Lex(unexpected_char_message(here.rest[0], here.pos))), here)
        }
    }

    /// The next item of the sequence of tokens, and the state behind it. The
    /// sequence stops before the token `End` and behind the first error.
    pub open spec fn next_item(self) -> (Option<Result<TokenView, ParseErrorView>>, LexerState) {
        if self.error is Some {
            (None, self)
        } else {
            let (found, after) = self.next_token();
            match found {
                Ok(token) => if token.typ is End {
                    (None, after)
                } else {
                    (Some(found), after)
                },
                Err(_) => (Some(found), after),
            }
        }
    }

    /// A bound on the number of items that the sequence of tokens still has.
    pub open spec fn items_left(self) -> nat {
        if self.error is Some {
            0
        } else {
            self.rest.len() + 1
        }
    }

    /// The items that the sequence of tokens still has, and the state in
    /// which it ends.
    pub open spec fn items(self) -> (Seq<Result<TokenView, ParseErrorView>>, LexerState)
        decreases self.items_left(),
        via Self::items_decreases
    {
        match self.next_item() {
            (Some(item), after) => (seq![item] + after.items().0, after.items().1),
            (None, after) => (Seq::empty(), after),
        }
    }

    #[via_fn]
    proof fn items_decreases(self) {
        lemma_next_token_consumes(self);
    }

    /// The state after `n` more calls of the lexer.
    pub open spec fn after_calls(self, n: nat) -> LexerState
        decreases n,
    {
        if n == 0 {
            self
        } else {
            self.next_token().1.after_calls((n - 1) as nat)
        }
    }

    /// One call of the lexer. A lexer that has failed does not scan again: it
    /// repeats its message as a `Lex` error and stays as it is. A scan that
    /// fails leaves the message to repeat.
    pub open spec fn next_token(self) -> (Result<TokenView, ParseErrorView>, LexerState) {
        match self.error {
            Some(msg) => (Err(ParseErrorView::Lex(msg)), self),
            None => {
                let (found, after) = self.scan();
                match found {
                    Ok(_) => (found, after),
                    Err(e) => (
                        found,
                        LexerState { error: Some(repeated_message(e.message())), ..after },
                    ),
                }
            },
        }
    }
}

/// An item of the sequence of tokens, with its texts as sequences of characters.
pub open spec fn listed(item: Option<Result<Token<'_>, ParseError>>) -> Option<
    Result<TokenView, ParseErrorView>,
> {
    match item {
        Some(r) => Some(lexed(r)),
        None => None,
    }
}

/// The items of a sequence of tokens, with their texts as sequences of
/// characters.
pub open spec fn all_listed(items: Seq<Result<Token<'_>, ParseError>>) -> Seq<
    Result<TokenView, ParseErrorView>,
> {
    items.map_values(|r: Result<Token<'_>, ParseError>| lexed(r))
}

/// What a regular expression matches at the start of a text is a start of
/// that text.
pub proof fn lemma_matched_prefix_is_prefix(pattern: Seq<char>, text: Seq<char>)
    ensures
        matched_prefix(pattern, text) matches Some(head) ==> head.len() <= text.len() && head
            == text.take(head.len() as int),
{
    if let Some(head) = matched_prefix(pattern, text) {
        let span = regex_find(pattern, text).unwrap();
        let end = span.1 as int;
        let bytes = encode_utf8(text);
        encode_utf8_valid_utf8(text);
        decode_utf8_split(bytes, end);
        encode_utf8_decode_utf8(text);
        let tail = decode_utf8(bytes.subrange(end, bytes.len() as int));
        assert(text == head + tail);
        assert(head =~= text.take(head.len() as int));
    }
}

/// Whitespace at the start of a text is part of the text.
pub proof fn lemma_leading_whitespace_bound(text: Seq<char>)
    ensures
        leading_whitespace(text) <= text.len(),
    decreases text.len(),
{
    if text.len() > 0 && is_whitespace(text[0]) {
        lemma_leading_whitespace_bound(text.skip(1));
    }
}

/// A call of the lexer never gives text back, and consumes at least one
/// character for any token but `End`.
pub proof fn lemma_next_token_consumes(st: LexerState)
    ensures
        st.next_token().1.rest.len() <= st.rest.len(),
        st.next_token().0 matches Ok(token) ==> (token.typ !is End ==> st.next_token().1.rest.len()
            < st.rest.len()),
{
    lemma_leading_whitespace_bound(st.rest);
    let here = st.advance(leading_whitespace(st.rest));
    lemma_matched_prefix_is_prefix(NUMBER_PATTERN@, here.rest);
    lemma_matched_prefix_is_prefix(IDENT_PATTERN@, here.rest);
}

/// A scan keeps the end of the text where it is. Its token is well formed
/// and lies at or behind the position of the lexer. `End` is reported at the
/// end of the text, where nothing is left; any other token lies before the
/// end, consumes at least one character, and leaves the lexer behind it.
pub proof fn lemma_scan(st: LexerState)
    requires
        st.wf(),
    ensures
        st.scan().1.wf(),
        st.scan().1.end_pos() == st.end_pos(),
        st.scan().1.error == st.error,
        st.scan().1.rest.len() <= st.rest.len(),
        st.scan().0 matches Ok(token) ==> {
            &&& token.well_formed()
            &&& token.typ is End ==> st.scan().1.rest.len() == 0 && token.pos == st.end_pos()
            &&& token.typ !is End ==> st.scan().1.rest.len() < st.rest.len() && token.pos
                < st.end_pos() && token.pos < st.scan().1.pos
            &&& st.pos <= token.pos <= st.scan().1.pos
        },
{
    lemma_leading_whitespace_bound(st.rest);
    let here = st.advance(leading_whitespace(st.rest));
    lemma_matched_prefix_is_prefix(NUMBER_PATTERN@, here.rest);
    lemma_matched_prefix_is_prefix(IDENT_PATTERN@, here.rest);
}

/// A call of the lexer keeps the end of the text where it is, and its token
/// is as `lemma_scan` says.
pub proof fn lemma_next_token(st: LexerState)
    requires
        st.wf(),
    ensures
        st.next_token().1.wf(),
        st.next_token().1.end_pos() == st.end_pos(),
        st.next_token().1.rest.len() <= st.rest.len(),
        st.next_token().0 matches Ok(token) ==> {
            &&& st.next_token().1.error is None
            &&& token.well_formed()
            &&& token.typ is End ==> st.next_token().1.rest.len() == 0 && token.pos == st.end_pos()
            &&& token.typ !is End ==> st.next_token().1.rest.len() < st.rest.len() && token.pos
                < st.end_pos() && token.pos < st.next_token().1.pos
            &&& st.pos <= token.pos <= st.next_token().1.pos
        },
{
    lemma_scan(st);
}

/// The sequence of tokens is finite: it has at most one item more than the
/// text has characters. It holds no `End`, and an error is its last item.
pub proof fn lemma_items(st: LexerState)
    ensures
        st.items().0.len() <= st.items_left(),
        forall|i: int|
            0 <= i < st.items().0.len() ==> match #[trigger] st.items().0[i] {
                Ok(token) => token.typ !is End,
                Err(_) => i == st.items().0.len() - 1,
            },
    decreases st.items_left(),
{
    lemma_next_token_consumes(st);
    if let (Some(item), after) = st.next_item() {
        lemma_items(after);
        let more = after.items().0;
        assert forall|i: int| 0 <= i < st.items().0.len() implies match #[trigger] st.items().0[i] {
            Ok(token) => token.typ !is End,
            Err(_) => i == st.items().0.len() - 1,
        } by {
            if i > 0 {
                assert(st.items().0[i] == more[i - 1]);
            }
        }
    }
}

/// The tokens of the sequence come in the order of the text: each lies at
/// or behind the position of the lexer, and before every token that follows
/// it.
pub proof fn lemma_items_in_order(st: LexerState)
    requires
        st.wf(),
    ensures
        forall|i: int|
            0 <= i < st.items().0.len() ==> (#[trigger] st.items().0[i] matches Ok(token)
                ==> st.pos <= token.pos),
        forall|i: int, j: int|
            0 <= i < j < st.items().0.len() ==> (#[trigger] st.items().0[i] matches Ok(a)
                ==> (#[trigger] st.items().0[j] matches Ok(b) ==> a.pos < b.pos)),
    decreases st.items_left(),
{
    lemma_next_token_consumes(st);
    lemma_next_token(st);
    if let (Some(item), after) = st.next_item() {
        lemma_items_in_order(after);
        let all = st.items().0;
        let more = after.items().0;
        assert forall|i: int| 0 <= i < all.len() implies (#[trigger] all[i] matches Ok(token)
            ==> st.pos <= token.pos) by {
            if i > 0 {
                assert(all[i] == more[i - 1]);
            }
        }
        assert forall|i: int, j: int| 0 <= i < j < all.len() implies (#[trigger] all[i] matches Ok(
            a,
        ) ==> (#[trigger] all[j] matches Ok(b) ==> a.pos < b.pos)) by {
            assert(all[j] == more[j - 1]);
            if i > 0 {
                assert(all[i] == more[i - 1]);
            }
        }
    }
}

/// Errors are sticky. Once a call of the lexer has failed, every later call
/// fails as well, without a scan: it leaves the lexer as it is and returns a
/// `Lex` error with the same message every time. Where the call that failed
/// was the first to fail, that message is the message of its error behind
/// the words that mark a repetition.
pub proof fn lemma_error_is_sticky(st: LexerState, n: nat)
    requires
        st.next_token().0 is Err,
    ensures
        st.next_token().1.error is Some,
        st.error is None ==> st.next_token().1.error == Some(
            repeated_message(st.next_token().0->Err_0.message()),
        ),
        st.next_token().1.after_calls(n) == st.next_token().1,
        st.next_token().1.after_calls(n).next_token().0 == Err::<TokenView, ParseErrorView>(
            ParseErrorView::Lex(st.next_token().1.error->0),
        ),
    decreases n,
{
    if n > 0 {
        let failed = st.next_token().1;
        assert(failed.next_token().1 == failed);
        lemma_error_is_sticky(st, (n - 1) as nat);
    }
}

/// However many tokens have been taken from a text, the end of the text
/// stays where it is: a token `End` is reported at the number of characters
/// of the text, and any other token before it.
pub proof fn lemma_end_of_text(text: Seq<char>, n: nat)
    requires
        text.len() <= u32::MAX,
    ensures
        LexerState::start(text).after_calls(n).wf(),
        LexerState::start(text).after_calls(n).end_pos() == text.len(),
        LexerState::start(text).after_calls(n).next_token().0 matches Ok(token) ==> if token.typ
            is End {
            token.pos == text.len()
        } else {
            token.pos < text.len()
        },
{
    lemma_calls_keep_end(LexerState::start(text), n);
    lemma_next_token(LexerState::start(text).after_calls(n));
}

/// Calls of the lexer keep the end of the text where it is.
pub proof fn lemma_calls_keep_end(st: LexerState, n: nat)
    requires
        st.wf(),
    ensures
        st.after_calls(n).wf(),
        st.after_calls(n).end_pos() == st.end_pos(),
    decreases n,
{
    if n > 0 {
        lemma_next_token(st);
        lemma_calls_keep_end(st.next_token().1, (n - 1) as nat);
    }
}

/// Decides whether `c` is a token by itself.
fn check_single_op(c: char) -> (b: bool)
    ensures
        b == is_single_op(c),
{
    c == '+' || c == '-' || c == '*' || c == '/' || c == '^' || c == '!' || c == '=' || c == '('
        || c == ')'
}

/// Drops the whitespace that `text` starts with and counts it from `pos` on.
fn skip_whitespace<'a>(text: &'a str, pos: u32) -> (r: (&'a str, u32))
    requires
        pos + text@.len() <= u32::MAX,
    ensures
        r.0@ == text@.skip(leading_whitespace(text@) as int),
        r.1 == pos + leading_whitespace(text@),
        leading_whitespace(text@) <= text@.len(),
{
    let mut rest = text;
    let mut at = pos;
    let ghost mut skipped: nat = 0;
    proof {
        assert(text@.skip(0) =~= text@);
    }
    loop
        invariant
            skipped <= text@.len(),
            rest@ == text@.skip(skipped as int),
            at == pos + skipped,
            pos + text@.len() <= u32::MAX,
            leading_whitespace(text@) == skipped + leading_whitespace(rest@),
        ensures
            rest@ == text@.skip(leading_whitespace(text@) as int),
            at == pos + leading_whitespace(text@),
            leading_whitespace(text@) <= text@.len(),
        decreases rest@.len(),
    {
        if rest.is_empty() {
            break ;
        }
        let (c, tail) = split_first(rest);
        if !char_is_whitespace(c) {
            break ;
        }
        proof {
            assert(text@.skip(skipped as int).skip(1) =~= text@.skip(skipped as int + 1));
            skipped = skipped + 1;
        }
        rest = tail;
        at = at + 1;
    }
    (rest, at)
}

/// The start of `text` that a match with the span `found` covers: the
/// characters before the end of the span, where the span starts with the first
/// character of `text` and ends between two characters.
pub open spec fn span_prefix(text: Seq<char>, found: Option<(usize, usize)>) -> Option<Seq<char>> {
    match found {
        Some((start, end)) => if start == 0 && is_char_boundary(encode_utf8(text), end as int) {
            Some(decode_utf8(encode_utf8(text).subrange(0, end as int)))
        } else {
            None
        },
        None => None,
    }
}

/// Splits `text` behind the match with the span `found`, where that match
/// starts with the first character of `text`: the result is what the match
/// covers and what follows it.
pub fn take_match<'a>(text: &'a str, found: Option<(usize, usize)>) -> (r: Option<
    (&'a str, &'a str),
>)
    ensures
        match r {
            Some((head, tail)) => span_prefix(text@, found) == Some(head@) && text@ == head@
                + tail@,
            None => span_prefix(text@, found) is None,
        },
{
    match found {
        Some((start, end)) => {
            if start == 0 && text.is_char_boundary(end) {
                let (head, tail) = split_at_boundary(text, end);
                proof {
                    encode_utf8_decode_utf8(head@);
                }
                Some((head, tail))
            } else {
                None
            }
        },
        None => None,
    }
}

/// Splits off the start of `text` that the regular expression `pattern`
/// matches, if it matches there.
fn match_prefix<'a>(pattern: &str, text: &'a str) -> (r: Option<(&'a str, &'a str)>)
    ensures
        match r {
            Some((head, tail)) => matched_prefix(pattern@, text@) == Some(head@) && tail@
                == text@.skip(head@.len() as int) && head@.len() <= text@.len(),
            None => matched_prefix(pattern@, text@) is None,
        },
{
    let r = take_match(text, find(pattern, text));
    proof {
        if let Some((head, tail)) = r {
            assert((head@ + tail@).skip(head@.len() as int) =~= tail@);
        }
    }
    r
}

/// Lexer class that hands out the tokens of a text one by one.
pub struct Lexer<'a> {
    text: &'a str,
    pos: u32,
    error: Option<String>,
}

impl<'a> View for Lexer<'a> {
    type V = LexerState;

    closed spec fn view(&self) -> LexerState {
        LexerState {
            rest: self.text@,
            pos: self.pos,
            error: match self.error {
                Some(msg) => Some(msg@),
                None => None,
            },
        }
    }
}

impl<'a> Clone for Lexer<'a> {
    fn clone(&self) -> (copy: Lexer<'a>)
        ensures
            copy@ == self@,
    {
        proof {
            use_type_invariant(self);
        }
        let error = match &self.error {
            Some(msg) => Some(msg.clone()),
            None => None,
        };
        Lexer { text: self.text, pos: self.pos, error }
    }
}

impl<'a> Lexer<'a> {
    #[verifier::type_invariant]
    spec fn fits(self) -> bool {
        self.pos + self.text@.len() <= u32::MAX
    }

    /// Creates a lexer at the start of `text`. The text must be short enough
    /// for every position in it to fit in 32 bits.
    pub fn new<'b>(text: &'b str) -> (lexer: Lexer<'b>)
        requires
            text@.len() <= u32::MAX,
        ensures
            lexer@ == LexerState::start(text@),
            lexer@.wf(),
    {
        Lexer { text: text, pos: 0, error: None }
    }

    /// Returns the next token, or an error if there was a lexing error.
    /// Subsequent invocations after an error repeat that error.
    pub fn next_token(&mut self) -> (r: Result<Token<'a>, ParseError>)
        ensures
            (lexed(r), final(self)@) == old(self)@.next_token(),
            old(self)@.wf(),
            final(self)@.wf(),
    {
        proof {
            use_type_invariant(&*self);
        }
        if let Some(msg) = &self.error {
            return Err(ParseError::Lex(msg.clone()));
        }
        let res = self.next_token_();
        proof {
            use_type_invariant(&*self);
        }
        if let Err(err) = &res {
            let mut msg = "Errored previously: ".to_owned();
            let first = err.message();
            msg.append(first.as_str());
            self.error = Some(msg);
        }
        res
    }

    /// The next item of the lexer taken as a sequence of tokens.
    pub fn next(&mut self) -> (item: Option<Result<Token<'a>, ParseError>>)
        ensures
            (listed(item), final(self)@) == old(self)@.next_item(),
            final(self)@.wf(),
    {
        if self.error.is_some() {
            proof {
                use_type_invariant(&*self);
            }
            return None;
        }
        match self.next_token() {
            Ok(Token { typ: TokenType::End, pos: _ }) => None,
            res => Some(res),
        }
    }

    /// All the items that the sequence of tokens still has.
    pub fn tokens(&mut self) -> (items: Vec<Result<Token<'a>, ParseError>>)
        ensures
            (all_listed(items@), final(self)@) == old(self)@.items(),
    {
        let mut items: Vec<Result<Token<'a>, ParseError>> = Vec::new();
        assert(all_listed(items@) =~= Seq::empty());
        loop
            invariant_except_break
                all_listed(items@) + self@.items().0 == old(self)@.items().0,
                self@.items().1 == old(self)@.items().1,
            ensures
                (all_listed(items@), self@) == old(self)@.items(),
            decreases self@.items_left(),
        {
            let ghost before = self@;
            let ghost listed_before = all_listed(items@);
            proof {
                lemma_next_token_consumes(before);
            }
            match self.next() {
                Some(item) => {
                    items.push(item);
                    assert(all_listed(items@) =~= listed_before.push(lexed(item)));
                    assert(listed_before.push(lexed(item)) + self@.items().0 =~= listed_before + (
                    seq![lexed(item)] + self@.items().0));
                },
                None => {
                    assert(listed_before + Seq::empty() =~= listed_before);
                    break ;
                },
            }
        }
        items
    }

    /// Iterator returning sequential values of `next_token()`.
    pub fn iter(&'a mut self) -> (it: Iter<'a>)
        ensures
            it@ == old(self)@,
            *final(self) == *final(it.0),
    {
        Iter(self)
    }

    fn next_token_(&mut self) -> (r: Result<Token<'a>, ParseError>)
        ensures
            (lexed(r), final(self)@) == old(self)@.scan(),
    {
        proof {
            use_type_invariant(&*self);
        }
        let (rest, pos) = skip_whitespace(self.text, self.pos);
        self.text = rest;
        self.pos = pos;
        if rest.is_empty() {
            return Ok(Token { typ: TokenType::End, pos });
        }
        let (c, tail) = split_first(rest);
        if check_single_op(c) {
            self.text = tail;
            self.pos = pos + 1;
            return Ok(Token { typ: TokenType::OpSingle(c), pos });
        }
        if let Some((lit, tail)) = match_prefix(NUMBER_PATTERN, rest) {
            if check_decimal_literal(lit) {
                let n = lit.unicode_len();
                self.text = tail;
                self.pos = pos + n as u32;
                return Ok(Token { typ: TokenType::Number(lit), pos });
            } else {
                return Err(ParseError::Float(lit.to_owned()));
            }
        }
        if let Some((name, tail)) = match_prefix(IDENT_PATTERN, rest) {
            if check_identifier(name) {
                let n = name.unicode_len();
                self.text = tail;
                self.pos = pos + n as u32;
                return Ok(Token { typ: TokenType::Ident(name), pos });
            }
        }
        let mut msg = "Unexpected '".to_owned();
        msg.push(c);
        msg.append("' at position ");
        push_decimal(&mut msg, pos);
        Err(ParseError::Lex(msg))
    }
}

/// Iterator for Lexer (to keep ownership of the Lexer). It advances the lexer
/// that it borrows.
pub struct Iter<'a>(pub &'a mut Lexer<'a>);

impl<'a> View for Iter<'a> {
    type V = LexerState;

    open spec fn view(&self) -> LexerState {
        (*self.0)@
    }
}

impl<'a> Iter<'a> {
    /// The next item, taken from the lexer that this iterator borrows.
    pub fn next(&mut self) -> (item: Option<Result<Token<'a>, ParseError>>)
        ensures
            (listed(item), final(self)@) == old(self)@.next_item(),
    {
        self.0.next()
    }
}

} // verus!
