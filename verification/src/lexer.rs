//! The lexer: from source text to an ordered sequence of tokens with their
//! positions. It has no failure mode: what is no token is passed over.

use crate::text::{chars_of, string_of};
use vstd::prelude::*;

verus! {

/// What a token is. An identifier, a string literal and a comment carry
/// their text; a string literal carries it with its escapes resolved, a
/// comment without the `%%` that opens it.
#[derive(Debug, Clone, PartialEq, Eq)]
pub enum TokenKind {
    DirectionKw,
    Identifier(String),
    StringLit(String),
    ArrowFlow,
    ArrowCond,
    LBracket,
    RBracket,
    Pipe,
    Comment(String),
    Newline,
    Eof,
}

/// The view of a [`TokenKind`].
pub ghost enum TokenKindView {
    DirectionKw,
    Identifier(Seq<char>),
    StringLit(Seq<char>),
    ArrowFlow,
    ArrowCond,
    LBracket,
    RBracket,
    Pipe,
    Comment(Seq<char>),
    Newline,
    Eof,
}

impl View for TokenKind {
    type V = TokenKindView;

    open spec fn view(&self) -> TokenKindView {
        match self {
            TokenKind::DirectionKw => TokenKindView::DirectionKw,
            TokenKind::Identifier(s) => TokenKindView::Identifier(s@),
            TokenKind::StringLit(s) => TokenKindView::StringLit(s@),
            TokenKind::ArrowFlow => TokenKindView::ArrowFlow,
            TokenKind::ArrowCond => TokenKindView::ArrowCond,
            TokenKind::LBracket => TokenKindView::LBracket,
            TokenKind::RBracket => TokenKindView::RBracket,
            TokenKind::Pipe => TokenKindView::Pipe,
            TokenKind::Comment(s) => TokenKindView::Comment(s@),
            TokenKind::Newline => TokenKindView::Newline,
            TokenKind::Eof => TokenKindView::Eof,
        }
    }
}

/// A token and the place of its first character.
#[derive(Debug, Clone, PartialEq, Eq)]
pub struct Token {
    pub kind: TokenKind,
    pub line: usize,
    pub col: usize,
}

/// The view of a [`Token`].
pub ghost struct TokenView {
    pub kind: TokenKindView,
    pub line: nat,
    pub col: nat,
}

impl View for Token {
    type V = TokenView;

    open spec fn view(&self) -> TokenView {
        TokenView { kind: self.kind@, line: self.line as nat, col: self.col as nat }
    }
}

impl DeepView for Token {
    type V = TokenView;

    open spec fn deep_view(&self) -> TokenView {
        self@
    }
}

/// An ASCII letter.
pub open spec fn is_letter(c: char) -> bool {
    ('a' <= c && c <= 'z') || ('A' <= c && c <= 'Z')
}

/// An ASCII letter, an ASCII digit or an underscore: what an identifier is
/// made of after its first character.
pub open spec fn is_word_char(c: char) -> bool {
    is_letter(c) || ('0' <= c && c <= '9') || c == '_'
}

/// The number of newline characters among the first `i` characters of `s`.
pub open spec fn newlines_before(s: Seq<char>, i: int) -> nat
    decreases i,
{
    if i <= 0 {
        0
    } else {
        newlines_before(s, i - 1) + if s[i - 1] == '\n' {
            1nat
        } else {
            0nat
        }
    }
}

/// The index at which the line that holds index `i` begins.
pub open spec fn line_start(s: Seq<char>, i: int) -> int
    decreases i,
{
    if i <= 0 {
        0
    } else if s[i - 1] == '\n' {
        i
    } else {
        line_start(s, i - 1)
    }
}

/// The index of the first newline character at or after `i`, or the length
/// of `s` where there is none.
pub open spec fn line_end(s: Seq<char>, i: int) -> int
    decreases s.len() - i,
{
    if i < 0 || i >= s.len() || s[i] == '\n' {
        i
    } else {
        line_end(s, i + 1)
    }
}

/// The line number, from 1, of the character at index `i`.
pub open spec fn line_of(s: Seq<char>, i: int) -> nat {
    newlines_before(s, i) + 1
}

/// The column number, from 1, of the character at index `i`.
pub open spec fn col_of(s: Seq<char>, i: int) -> nat {
    (i - line_start(s, i) + 1) as nat
}

/// The index of the first character at or after `i` that cannot continue an
/// identifier.
pub open spec fn word_end(s: Seq<char>, i: int) -> int
    decreases s.len() - i,
{
    if 0 <= i < s.len() && is_word_char(s[i]) {
        word_end(s, i + 1)
    } else {
        i
    }
}

/// Inside a string literal, at index `j`: a backslash followed by a quote or
/// by a backslash. No other escape exists.
pub open spec fn is_escape(s: Seq<char>, j: int) -> bool {
    s[j] == '\\' && j + 1 < s.len() && (s[j + 1] == '"' || s[j + 1] == '\\')
}

/// Where the string literal whose body begins at `j` stops: just after the
/// first quote that is not escaped, or at the end of the line where the
/// literal is not closed.
pub open spec fn string_end(s: Seq<char>, j: int) -> int
    decreases s.len() - j,
{
    if j < 0 || j >= s.len() || s[j] == '\n' {
        j
    } else if s[j] == '"' {
        j + 1
    } else if is_escape(s, j) {
        string_end(s, j + 2)
    } else {
        string_end(s, j + 1)
    }
}

/// The text of the string literal whose body begins at `j`, each escape
/// replaced by the character it stands for.
pub open spec fn string_text(s: Seq<char>, j: int) -> Seq<char>
    decreases s.len() - j,
{
    if j < 0 || j >= s.len() || s[j] == '\n' || s[j] == '"' {
        Seq::empty()
    } else if is_escape(s, j) {
        seq![s[j + 1]] + string_text(s, j + 2)
    } else {
        seq![s[j]] + string_text(s, j + 1)
    }
}

/// What begins at one index of the source: a token or nothing, and the
/// index at which scanning goes on.
pub ghost struct Lexeme {
    pub kind: Option<TokenKindView>,
    pub end: int,
}

/// The keyword or identifier that the characters `w` spell.
pub open spec fn word_kind(w: Seq<char>) -> TokenKindView {
    if w == "direction"@ {
        TokenKindView::DirectionKw
    } else {
        TokenKindView::Identifier(w)
    }
}

/// The lexeme that begins at index `i` of `s`.
#[verifier::opaque]
pub open spec fn lexeme_at(s: Seq<char>, i: int) -> Lexeme
    recommends
        0 <= i < s.len(),
{
    let c = s[i];
    if c == '\n' {
        Lexeme { kind: Some(TokenKindView::Newline), end: i + 1 }
    } else if c == '%' && i + 1 < s.len() && s[i + 1] == '%' {
        let end = line_end(s, i + 2);
        Lexeme { kind: Some(TokenKindView::Comment(s.subrange(i + 2, end))), end }
    } else if c == '[' {
        Lexeme { kind: Some(TokenKindView::LBracket), end: i + 1 }
    } else if c == ']' {
        Lexeme { kind: Some(TokenKindView::RBracket), end: i + 1 }
    } else if c == '|' {
        Lexeme { kind: Some(TokenKindView::Pipe), end: i + 1 }
    } else if c == '"' {
        Lexeme {
            kind: Some(TokenKindView::StringLit(string_text(s, i + 1))),
            end: string_end(s, i + 1),
        }
    } else if c == '-' && i + 2 < s.len() && s[i + 1] == '-' && s[i + 2] == '>' {
        Lexeme { kind: Some(TokenKindView::ArrowFlow), end: i + 3 }
    } else if c == '-' && i + 3 < s.len() && s[i + 1] == '.' && s[i + 2] == '-' && s[i + 3]
        == '>' {
        Lexeme { kind: Some(TokenKindView::ArrowCond), end: i + 4 }
    } else if is_letter(c) {
        let end = word_end(s, i + 1);
        Lexeme { kind: Some(word_kind(s.subrange(i, end))), end }
    } else {
        Lexeme { kind: None, end: i + 1 }
    }
}

/// Whether the text ends inside a line, that is without a final newline.
pub open spec fn last_line_open(s: Seq<char>) -> bool {
    s.len() > 0 && s.last() != '\n'
}

/// The tokens that close the stream: the newline of a last line that the
/// text left open, at column 1, and the end marker on the line below.
pub open spec fn closing_tokens(s: Seq<char>) -> Seq<TokenView> {
    let line = line_of(s, s.len() as int);
    if last_line_open(s) {
        seq![
            TokenView { kind: TokenKindView::Newline, line, col: 1 },
            TokenView { kind: TokenKindView::Eof, line: line + 1, col: 1 },
        ]
    } else {
        seq![TokenView { kind: TokenKindView::Eof, line, col: 1 }]
    }
}

/// The tokens of `s` from index `i` on.
pub open spec fn tokens_from(s: Seq<char>, i: int) -> Seq<TokenView>
    decreases s.len() - i,
    via tokens_from_decreases
{
    if i < 0 || i >= s.len() {
        closing_tokens(s)
    } else {
        let lx = lexeme_at(s, i);
        let rest = tokens_from(s, lx.end);
        match lx.kind {
            Some(kind) => seq![TokenView { kind, line: line_of(s, i), col: col_of(s, i) }] + rest,
            None => rest,
        }
    }
}

#[via_fn]
proof fn tokens_from_decreases(s: Seq<char>, i: int) {
    if 0 <= i < s.len() {
        lemma_lexeme_advances(s, i);
    }
}

/// The token sequence of a source text.
pub open spec fn lex(s: Seq<char>) -> Seq<TokenView> {
    tokens_from(s, 0)
}

/// `line_end` stays within the text and crosses no newline.
pub proof fn lemma_line_end(s: Seq<char>, i: int)
    requires
        0 <= i <= s.len(),
    ensures
        i <= line_end(s, i) <= s.len(),
        forall|k: int| i <= k < line_end(s, i) ==> s[k] != '\n',
        line_end(s, i) < s.len() ==> s[line_end(s, i)] == '\n',
    decreases s.len() - i,
{
    if i < s.len() && s[i] != '\n' {
        lemma_line_end(s, i + 1);
    }
}

/// `word_end` stays within the text and crosses word characters only.
pub proof fn lemma_word_end(s: Seq<char>, i: int)
    requires
        0 <= i <= s.len(),
    ensures
        i <= word_end(s, i) <= s.len(),
        forall|k: int| i <= k < word_end(s, i) ==> is_word_char(s[k]),
    decreases s.len() - i,
{
    if i < s.len() && is_word_char(s[i]) {
        lemma_word_end(s, i + 1);
    }
}

/// `string_end` stays within the text and crosses no newline.
pub proof fn lemma_string_end(s: Seq<char>, j: int)
    requires
        0 <= j <= s.len(),
    ensures
        j <= string_end(s, j) <= s.len(),
        forall|k: int| j <= k < string_end(s, j) ==> s[k] != '\n',
    decreases s.len() - j,
{
    if j < s.len() && s[j] != '\n' && s[j] != '"' {
        if is_escape(s, j) {
            lemma_string_end(s, j + 2);
        } else {
            lemma_string_end(s, j + 1);
        }
    }
}

/// Every lexeme is at least one character long, lies within the text, and
/// holds a newline only where it is the newline token.
pub proof fn lemma_lexeme_advances(s: Seq<char>, i: int)
    requires
        0 <= i < s.len(),
    ensures
        i < lexeme_at(s, i).end <= s.len(),
        s[i] != '\n' ==> forall|k: int| i <= k < lexeme_at(s, i).end ==> s[k] != '\n',
        s[i] == '\n' ==> lexeme_at(s, i).end == i + 1,
        lexeme_at(s, i).kind != Some(TokenKindView::Eof),
        lexeme_at(s, i).kind == Some(TokenKindView::Newline) <==> s[i] == '\n',
{
    reveal(lexeme_at);
    lemma_line_end(s, i + 1);
    if i + 2 <= s.len() {
        lemma_line_end(s, i + 2);
    }
    lemma_word_end(s, i + 1);
    lemma_string_end(s, i + 1);
}

/// Between two indices with no newline from the one to the other, the line
/// and the start of the line are the same.
pub proof fn lemma_same_line(s: Seq<char>, i: int, j: int)
    requires
        0 <= i <= j <= s.len(),
        forall|k: int| i <= k < j ==> s[k] != '\n',
    ensures
        newlines_before(s, j) == newlines_before(s, i),
        line_start(s, j) == line_start(s, i),
    decreases j - i,
{
    if i < j {
        lemma_same_line(s, i, j - 1);
    }
}

/// A line starts at or before each of its indices.
pub proof fn lemma_line_start_bound(s: Seq<char>, i: int)
    requires
        0 <= i,
    ensures
        0 <= line_start(s, i) <= i,
    decreases i,
{
    if i > 0 {
        lemma_line_start_bound(s, i - 1);
    }
}

/// There are no more newlines before an index than characters.
pub proof fn lemma_newlines_bound(s: Seq<char>, i: int)
    requires
        0 <= i,
    ensures
        newlines_before(s, i) <= i,
    decreases i,
{
    if i > 0 {
        lemma_newlines_bound(s, i - 1);
    }
}

/// Whether token `k + 1` of `t` may follow token `k`: after a token that is
/// no newline comes no end marker, and what comes, unless it is a newline,
/// stands on the same line and further right.
pub open spec fn in_order(t: Seq<TokenView>, k: int) -> bool {
    t[k].kind != TokenKindView::Newline ==> {
        &&& t[k + 1].kind != TokenKindView::Eof
        &&& t[k + 1].kind != TokenKindView::Newline ==> t[k + 1].line == t[k].line && t[k].col
            < t[k + 1].col
    }
}

/// What every token sequence that the lexer gives satisfies, and what the
/// parser relies on: the end marker closes it and stands nowhere else, each
/// token may follow the one before it, and lines and columns count from 1.
pub open spec fn well_formed(t: Seq<TokenView>) -> bool {
    &&& t.len() > 0
    &&& t.last().kind == TokenKindView::Eof
    &&& forall|k: int| 0 <= k < t.len() - 1 ==> (#[trigger] t[k]).kind != TokenKindView::Eof
    &&& forall|k: int| 0 <= k < t.len() - 1 ==> #[trigger] in_order(t, k)
    &&& forall|k: int| 0 <= k < t.len() ==> (#[trigger] t[k]).line >= 1 && t[k].col >= 1
}

/// The number of newline tokens in `t`.
pub open spec fn newline_tokens(t: Seq<TokenView>) -> nat
    decreases t.len(),
{
    if t.len() == 0 {
        0
    } else {
        newline_tokens(t.drop_first()) + if t[0].kind == TokenKindView::Newline {
            1nat
        } else {
            0nat
        }
    }
}

/// The number of lines of `s`: one for each newline character, and one more
/// for a last line that no newline character ends.
pub open spec fn line_count(s: Seq<char>) -> nat {
    newlines_before(s, s.len() as int) + if last_line_open(s) {
        1nat
    } else {
        0nat
    }
}

pub proof fn lemma_tokens_from_shape(s: Seq<char>, i: int)
    requires
        0 <= i <= s.len(),
    ensures
        well_formed(tokens_from(s, i)),
        tokens_from(s, i)[0].kind == TokenKindView::Eof ==> i == s.len() && !last_line_open(s),
        tokens_from(s, i)[0].kind != TokenKindView::Newline ==> tokens_from(s, i)[0].line
            == line_of(s, i) && tokens_from(s, i)[0].col >= col_of(s, i),
        newline_tokens(tokens_from(s, i)) + newlines_before(s, i) == line_count(s),
    decreases s.len() - i,
{
    let t = tokens_from(s, i);
    lemma_line_start_bound(s, i);
    if i >= s.len() {
        assert(t == closing_tokens(s));
        if last_line_open(s) {
            assert(t.drop_first() =~= seq![t[1]]);
            assert(t.drop_first().drop_first() =~= Seq::<TokenView>::empty());
            assert(newline_tokens(t.drop_first().drop_first()) == 0);
            assert(newline_tokens(t.drop_first()) == 0);
            assert(newline_tokens(t) == 1);
        } else {
            assert(t.drop_first() =~= Seq::<TokenView>::empty());
            assert(newline_tokens(t.drop_first()) == 0);
            assert(newline_tokens(t) == 0);
            if s.len() > 0 {
                assert(s[s.len() - 1] == '\n');
            }
        }
    } else {
        lemma_lexeme_advances(s, i);
        let lx = lexeme_at(s, i);
        let rest = tokens_from(s, lx.end);
        lemma_tokens_from_shape(s, lx.end);
        lemma_line_start_bound(s, lx.end);
        if s[i] != '\n' {
            lemma_same_line(s, i, lx.end);
        } else {
            assert(newlines_before(s, i + 1) == newlines_before(s, i) + 1);
        }
        match lx.kind {
            Some(kind) => {
                let tok = TokenView { kind, line: line_of(s, i), col: col_of(s, i) };
                assert(t == seq![tok] + rest);
                assert(t.drop_first() =~= rest);
                assert(newline_tokens(t) == newline_tokens(rest) + if kind
                    == TokenKindView::Newline {
                    1nat
                } else {
                    0nat
                });
                assert forall|k: int| 0 <= k < t.len() - 1 implies (#[trigger] t[k]).kind
                    != TokenKindView::Eof by {
                    if k > 0 {
                        assert(t[k] == rest[k - 1]);
                    }
                }
                assert forall|k: int| 0 <= k < t.len() - 1 implies #[trigger] in_order(t, k) by {
                    assert(t[k + 1] == rest[k]);
                    if k > 0 {
                        assert(t[k] == rest[k - 1]);
                        assert(in_order(rest, k - 1));
                    } else {
                        assert(t[0] == tok);
                    }
                }
                assert forall|k: int| 0 <= k < t.len() implies (#[trigger] t[k]).line >= 1
                    && t[k].col >= 1 by {
                    if k > 0 {
                        assert(t[k] == rest[k - 1]);
                    }
                }
            },
            None => {
                assert(t == rest);
            },
        }
    }
}

/// The token sequence of any text is well formed.
pub proof fn lemma_lex_well_formed(s: Seq<char>)
    ensures
        well_formed(lex(s)),
{
    lemma_tokens_from_shape(s, 0);
}

/// Every line of the text, whether or not a newline character ends it,
/// gives exactly one newline token.
pub proof fn lemma_one_newline_token_per_line(s: Seq<char>)
    ensures
        newline_tokens(lex(s)) == line_count(s),
{
    lemma_tokens_from_shape(s, 0);
}

/// Among tokens with no newline between them, columns grow.
pub proof fn lemma_columns_grow(t: Seq<TokenView>, a: int, b: int)
    requires
        well_formed(t),
        0 <= a <= b < t.len(),
        forall|k: int| a <= k <= b ==> (#[trigger] t[k]).kind != TokenKindView::Newline,
    ensures
        t[a].col <= t[b].col,
        t[a].line == t[b].line,
    decreases b - a,
{
    if a < b {
        lemma_columns_grow(t, a, b - 1);
        assert(in_order(t, b - 1));
    }
}

/// Whether `x` holds no newline character.
pub open spec fn no_newline(x: Seq<char>) -> bool {
    forall|k: int| 0 <= k < x.len() ==> x[k] != '\n'
}

/// What holds of the text that a token carries: an identifier is not the
/// keyword, and neither a string literal nor a comment holds a newline.
pub open spec fn sound_kind(kind: TokenKindView) -> bool {
    match kind {
        TokenKindView::Identifier(word) => word != "direction"@,
        TokenKindView::StringLit(text) => no_newline(text),
        TokenKindView::Comment(text) => no_newline(text),
        _ => true,
    }
}

/// The text of a string literal holds no newline.
pub proof fn lemma_string_text(s: Seq<char>, j: int)
    requires
        0 <= j <= s.len(),
    ensures
        no_newline(string_text(s, j)),
    decreases s.len() - j,
{
    if j < s.len() && s[j] != '\n' && s[j] != '"' {
        if is_escape(s, j) {
            lemma_string_text(s, j + 2);
        } else {
            lemma_string_text(s, j + 1);
        }
    }
}

/// Every token of a text carries sound text.
pub proof fn lemma_tokens_sound(s: Seq<char>, i: int)
    requires
        0 <= i <= s.len(),
    ensures
        forall|k: int|
            0 <= k < tokens_from(s, i).len() ==> sound_kind((#[trigger] tokens_from(s, i)[k]).kind),
    decreases s.len() - i,
{
    let t = tokens_from(s, i);
    if i < s.len() {
        reveal(lexeme_at);
        lemma_lexeme_advances(s, i);
        let lx = lexeme_at(s, i);
        let rest = tokens_from(s, lx.end);
        lemma_tokens_sound(s, lx.end);
        lemma_string_text(s, i + 1);
        if i + 2 <= s.len() {
            lemma_line_end(s, i + 2);
        }
        match lx.kind {
            Some(kind) => {
                assert(sound_kind(kind));
                assert forall|k: int| 0 <= k < t.len() implies sound_kind(
                    (#[trigger] t[k]).kind,
                ) by {
                    if k > 0 {
                        assert(t[k] == rest[k - 1]);
                    }
                }
            },
            None => {},
        }
    }
}

fn is_letter_char(c: char) -> (b: bool)
    ensures
        b == is_letter(c),
{
    (c >= 'a' && c <= 'z') || (c >= 'A' && c <= 'Z')
}

fn is_word(c: char) -> (b: bool)
    ensures
        b == is_word_char(c),
{
    is_letter_char(c) || (c >= '0' && c <= '9') || c == '_'
}

fn scan_line_end(src: &Vec<char>, i: usize) -> (end: usize)
    requires
        i <= src.len(),
    ensures
        end == line_end(src@, i as int),
        i <= end <= src.len(),
{
    let mut j: usize = i;
    while j < src.len() && src[j] != '\n'
        invariant
            i <= j <= src.len(),
            line_end(src@, j as int) == line_end(src@, i as int),
        decreases src.len() - j,
    {
        j += 1;
    }
    j
}

fn scan_word_end(src: &Vec<char>, i: usize) -> (end: usize)
    requires
        i <= src.len(),
    ensures
        end == word_end(src@, i as int),
        i <= end <= src.len(),
{
    let mut j: usize = i;
    while j < src.len() && is_word(src[j])
        invariant
            i <= j <= src.len(),
            word_end(src@, j as int) == word_end(src@, i as int),
        decreases src.len() - j,
    {
        j += 1;
    }
    j
}

fn scan_string(src: &Vec<char>, start: usize) -> (out: (String, usize))
    requires
        start <= src.len(),
    ensures
        out.0@ == string_text(src@, start as int),
        out.1 == string_end(src@, start as int),
        start <= out.1 <= src.len(),
{
    let n = src.len();
    let mut text = String::new();
    let mut j: usize = start;
    while j < n && src[j] != '\n' && src[j] != '"'
        invariant
            n == src.len(),
            start <= j <= n,
            text@ + string_text(src@, j as int) =~= string_text(src@, start as int),
            string_end(src@, j as int) == string_end(src@, start as int),
        decreases n - j,
    {
        let c = src[j];
        if c == '\\' && n - j > 1 && (src[j + 1] == '"' || src[j + 1] == '\\') {
            text.push(src[j + 1]);
            j += 2;
        } else {
            text.push(c);
            j += 1;
        }
    }
    if j < n && src[j] == '"' {
        j += 1;
    }
    (text, j)
}

fn emit(toks: &mut Vec<Token>, kind: TokenKind, line: usize, col: usize)
    ensures
        final(toks).deep_view() == old(toks).deep_view().push(
            TokenView { kind: kind@, line: line as nat, col: col as nat },
        ),
        final(toks).len() == old(toks).len() + 1,
{
    toks.push(Token { kind, line, col });
    assert(toks.deep_view() =~= old(toks).deep_view().push(
        TokenView { kind: kind@, line: line as nat, col: col as nat },
    ));
}

/// The lexer. It holds no state: `tokenize` is a function of the text.
pub struct Lexer;

impl Lexer {
    /// The tokens of `input`, each with the line and column of its first
    /// character, closed by the end marker. Columns count characters, not
    /// bytes. Every line of the text, whether or not a newline character
    /// ends it, gives one newline token.
    pub fn tokenize(input: &str) -> (toks: Vec<Token>)
        ensures
            toks.deep_view() == lex(input@),
            well_formed(toks.deep_view()),
            newline_tokens(toks.deep_view()) == line_count(input@),
    {
        let src = chars_of(input);
        let n = src.len();
        let keyword = "direction".to_owned();
        let mut toks: Vec<Token> = Vec::new();
        let mut i: usize = 0;
        let mut lines: usize = 0;
        let mut bol: usize = 0;
        while i < n
            invariant
                src@ == input@,
                keyword@ == "direction"@,
                n == src.len(),
                bol <= i <= n,
                lines == newlines_before(src@, i as int),
                bol == line_start(src@, i as int),
                lines <= i,
                lines <= toks.len(),
                toks.deep_view() + tokens_from(src@, i as int) =~= lex(src@),
            decreases n - i,
        {
            let ghost before = toks.deep_view();
            let c = src[i];
            let line = lines + 1;
            let col = i - bol + 1;
            let mut end = i + 1;
            if c == '\n' {
                emit(&mut toks, TokenKind::Newline, line, col);
            } else if c == '%' && n - i > 1 && src[i + 1] == '%' {
                end = scan_line_end(&src, i + 2);
                let text = string_of(&src, i + 2, end);
                emit(&mut toks, TokenKind::Comment(text), line, col);
            } else if c == '[' {
                emit(&mut toks, TokenKind::LBracket, line, col);
            } else if c == ']' {
                emit(&mut toks, TokenKind::RBracket, line, col);
            } else if c == '|' {
                emit(&mut toks, TokenKind::Pipe, line, col);
            } else if c == '"' {
                let (text, stop) = scan_string(&src, i + 1);
                end = stop;
                emit(&mut toks, TokenKind::StringLit(text), line, col);
            } else if c == '-' && n - i > 2 && src[i + 1] == '-' && src[i + 2] == '>' {
                end = i + 3;
                emit(&mut toks, TokenKind::ArrowFlow, line, col);
            } else if c == '-' && n - i > 3 && src[i + 1] == '.' && src[i + 2] == '-' && src[i
                + 3] == '>' {
                end = i + 4;
                emit(&mut toks, TokenKind::ArrowCond, line, col);
            } else if is_letter_char(c) {
                end = scan_word_end(&src, i + 1);
                let word = string_of(&src, i, end);
                if word == keyword {
                    emit(&mut toks, TokenKind::DirectionKw, line, col);
                } else {
                    emit(&mut toks, TokenKind::Identifier(word), line, col);
                }
            }
            proof {
                reveal(lexeme_at);
                lemma_lexeme_advances(src@, i as int);
                let lx = lexeme_at(src@, i as int);
                assert(end == lx.end);
                match lx.kind {
                    Some(kind) => {
                        let t = TokenView { kind, line: line as nat, col: col as nat };
                        assert(toks.deep_view() == before.push(t));
                        assert(before.push(t) + tokens_from(src@, end as int) =~= before + (seq![t]
                            + tokens_from(src@, end as int)));
                    },
                    None => {
                        assert(toks.deep_view() == before);
                    },
                }
                if c != '\n' {
                    lemma_same_line(src@, i as int, end as int);
                }
            }
            if c == '\n' {
                lines += 1;
                bol = end;
            }
            i = end;
        }
        assert(tokens_from(src@, n as int) == closing_tokens(src@));
        let mut count = lines;
        if n > 0 && src[n - 1] != '\n' {
            proof {
                lemma_newlines_bound(src@, n - 1);
            }
            emit(&mut toks, TokenKind::Newline, lines + 1, 1);
            count = lines + 1;
        }
        // The end marker is stored before its line is known to fit: once it
        // is in, the length of the vector bounds the number of lines.
        let ghost before = toks.deep_view();
        toks.push(Token { kind: TokenKind::Eof, line: 1, col: 1 });
        let last = toks.len() - 1;
        toks.set(last, Token { kind: TokenKind::Eof, line: count + 1, col: 1 });
        assert(toks.deep_view() =~= before.push(
            TokenView { kind: TokenKindView::Eof, line: (count + 1) as nat, col: 1 },
        ));
        proof {
            lemma_lex_well_formed(input@);
            lemma_one_newline_token_per_line(input@);
            assert(toks.deep_view() == lex(input@));
        }
        toks
    }
}

} // verus!
