//! The lexer: source text to tokens.
use vstd::prelude::*;
use crate::strings::{push_char, str_eq};

verus! {

/// The kind of a token.
#[derive(Debug, Clone, PartialEq)]
pub enum TokenKind {
    // Keywords
    Let,
    Fn,
    While,
    If,
    Else,
    True,
    False,
    // Literals
    Identifier(String),
    /// A number literal, by the bit pattern of its IEEE-754 binary64 value.
    Number(u64),
    String(String),
    // Operators
    Plus,
    Minus,
    Asterisk,
    Slash,
    Percent,
    Assign,
    Eq,
    Ne,
    Lt,
    Gt,
    Le,
    Ge,
    Pipeline,
    // Punctuation
    LParen,
    RParen,
    LBrace,
    RBrace,
    Comma,
    Semicolon,
    EOF,
}

/// The mathematical form of a token kind: text is a character sequence.
pub enum KindView {
    Let,
    Fn,
    While,
    If,
    Else,
    True,
    False,
    Identifier(Seq<char>),
    Number(u64),
    Str(Seq<char>),
    Plus,
    Minus,
    Asterisk,
    Slash,
    Percent,
    Assign,
    Eq,
    Ne,
    Lt,
    Gt,
    Le,
    Ge,
    Pipeline,
    LParen,
    RParen,
    LBrace,
    RBrace,
    Comma,
    Semicolon,
    EOF,
}

impl View for TokenKind {
    type V = KindView;

    open spec fn view(&self) -> KindView {
        match self {
            TokenKind::Let => KindView::Let,
            TokenKind::Fn => KindView::Fn,
            TokenKind::While => KindView::While,
            TokenKind::If => KindView::If,
            TokenKind::Else => KindView::Else,
            TokenKind::True => KindView::True,
            TokenKind::False => KindView::False,
            TokenKind::Identifier(s) => KindView::Identifier(s@),
            TokenKind::Number(n) => KindView::Number(*n),
            TokenKind::String(s) => KindView::Str(s@),
            TokenKind::Plus => KindView::Plus,
            TokenKind::Minus => KindView::Minus,
            TokenKind::Asterisk => KindView::Asterisk,
            TokenKind::Slash => KindView::Slash,
            TokenKind::Percent => KindView::Percent,
            TokenKind::Assign => KindView::Assign,
            TokenKind::Eq => KindView::Eq,
            TokenKind::Ne => KindView::Ne,
            TokenKind::Lt => KindView::Lt,
            TokenKind::Gt => KindView::Gt,
            TokenKind::Le => KindView::Le,
            TokenKind::Ge => KindView::Ge,
            TokenKind::Pipeline => KindView::Pipeline,
            TokenKind::LParen => KindView::LParen,
            TokenKind::RParen => KindView::RParen,
            TokenKind::LBrace => KindView::LBrace,
            TokenKind::RBrace => KindView::RBrace,
            TokenKind::Comma => KindView::Comma,
            TokenKind::Semicolon => KindView::Semicolon,
            TokenKind::EOF => KindView::EOF,
        }
    }
}

/// A token with the line and column (both counted from 1) where it starts.
#[derive(Debug, Clone)]
pub struct Token {
    pub kind: TokenKind,
    pub line: usize,
    pub column: usize,
}

/// The mathematical form of a token.
pub struct TokenView {
    pub kind: KindView,
    pub line: int,
    pub column: int,
}

impl View for Token {
    type V = TokenView;

    open spec fn view(&self) -> TokenView {
        TokenView { kind: self.kind@, line: self.line as int, column: self.column as int }
    }
}

impl TokenKind {
    /// A copy of this kind.
    pub fn duplicate(&self) -> (r: TokenKind)
        ensures
            r@ == self@,
    {
        match self {
            TokenKind::Identifier(s) => TokenKind::Identifier(s.clone()),
            TokenKind::Number(n) => TokenKind::Number(*n),
            TokenKind::String(s) => TokenKind::String(s.clone()),
            TokenKind::Let => TokenKind::Let,
            TokenKind::Fn => TokenKind::Fn,
            TokenKind::While => TokenKind::While,
            TokenKind::If => TokenKind::If,
            TokenKind::Else => TokenKind::Else,
            TokenKind::True => TokenKind::True,
            TokenKind::False => TokenKind::False,
            TokenKind::Plus => TokenKind::Plus,
            TokenKind::Minus => TokenKind::Minus,
            TokenKind::Asterisk => TokenKind::Asterisk,
            TokenKind::Slash => TokenKind::Slash,
            TokenKind::Percent => TokenKind::Percent,
            TokenKind::Assign => TokenKind::Assign,
            TokenKind::Eq => TokenKind::Eq,
            TokenKind::Ne => TokenKind::Ne,
            TokenKind::Lt => TokenKind::Lt,
            TokenKind::Gt => TokenKind::Gt,
            TokenKind::Le => TokenKind::Le,
            TokenKind::Ge => TokenKind::Ge,
            TokenKind::Pipeline => TokenKind::Pipeline,
            TokenKind::LParen => TokenKind::LParen,
            TokenKind::RParen => TokenKind::RParen,
            TokenKind::LBrace => TokenKind::LBrace,
            TokenKind::RBrace => TokenKind::RBrace,
            TokenKind::Comma => TokenKind::Comma,
            TokenKind::Semicolon => TokenKind::Semicolon,
            TokenKind::EOF => TokenKind::EOF,
        }
    }
}

impl Token {
    /// A copy of this token.
    pub fn duplicate(&self) -> (r: Token)
        ensures
            r@ == self@,
    {
        Token { kind: self.kind.duplicate(), line: self.line, column: self.column }
    }
}

/// The view of a sequence of tokens.
pub open spec fn tokens_view(v: Seq<Token>) -> Seq<TokenView> {
    v.map_values(|t: Token| t@)
}

/// A lexing error, with the line and column where the offending token starts.
#[derive(Debug, Clone, PartialEq)]
pub enum LexError {
    /// A run of digits and dots that holds more than one dot.
    InvalidNumber(String, usize, usize),
    /// A string literal without its closing quote.
    UnterminatedString(usize, usize),
    /// A character that starts no token.
    UnexpectedChar(char, usize, usize),
}

pub enum LexErrorView {
    InvalidNumber(Seq<char>, int, int),
    UnterminatedString(int, int),
    UnexpectedChar(char, int, int),
}

impl View for LexError {
    type V = LexErrorView;

    open spec fn view(&self) -> LexErrorView {
        match self {
            LexError::InvalidNumber(s, l, c) => LexErrorView::InvalidNumber(s@, *l as int, *c as int),
            LexError::UnterminatedString(l, c) => LexErrorView::UnterminatedString(
                *l as int,
                *c as int,
            ),
            LexError::UnexpectedChar(ch, l, c) => LexErrorView::UnexpectedChar(
                *ch,
                *l as int,
                *c as int,
            ),
        }
    }
}

// ---------------------------------------------------------------------------
// Character classes
// ---------------------------------------------------------------------------

/// Whether `c` has the Unicode White_Space property: the characters that
/// the Unicode character database lists with it.
pub open spec fn unicode_whitespace(c: char) -> bool {
    ||| '\u{9}' <= c && c <= '\u{d}'
    ||| c == ' '
    ||| c == '\u{85}'
    ||| c == '\u{a0}'
    ||| c == '\u{1680}'
    ||| '\u{2000}' <= c && c <= '\u{200a}'
    ||| c == '\u{2028}'
    ||| c == '\u{2029}'
    ||| c == '\u{202f}'
    ||| c == '\u{205f}'
    ||| c == '\u{3000}'
}

/// Whether `c`, a character outside ASCII, has the Unicode Alphabetic
/// property.
pub uninterp spec fn unicode_alphabetic(c: char) -> bool;

/// Whether `c`, a character outside ASCII, has a Unicode numeric general
/// category (Nd, Nl or No).
pub uninterp spec fn unicode_numeric(c: char) -> bool;

/// An ASCII letter.
pub open spec fn ascii_letter(c: char) -> bool {
    ('a' <= c && c <= 'z') || ('A' <= c && c <= 'Z')
}

/// Whether `c` is alphabetic: in ASCII exactly the letters.
pub open spec fn alphabetic(c: char) -> bool {
    if c <= '\u{7f}' {
        ascii_letter(c)
    } else {
        unicode_alphabetic(c)
    }
}

/// Whether `c` is numeric: in ASCII exactly the digits.
pub open spec fn numeric(c: char) -> bool {
    if c <= '\u{7f}' {
        is_digit(c)
    } else {
        unicode_numeric(c)
    }
}

/// Calls `char::is_whitespace`, which is true exactly for the characters
/// with the White_Space property.
#[verifier::external_body]
fn is_whitespace(c: char) -> (r: bool)
    ensures
        r == unicode_whitespace(c),
{
    c.is_whitespace()
}

/// Calls `char::is_alphabetic`: in ASCII true exactly for the letters;
/// beyond ASCII its result is named, as it rests on the Unicode character
/// database.
#[verifier::external_body]
fn is_alphabetic(c: char) -> (r: bool)
    ensures
        r == alphabetic(c),
        c > '\u{7f}' ==> r == unicode_alphabetic(c),
{
    c.is_alphabetic()
}

/// Calls `char::is_alphanumeric`, which its documentation defines as
/// `is_alphabetic() || is_numeric()`: in ASCII true exactly for the letters
/// and digits; beyond ASCII the two classes are named.
#[verifier::external_body]
fn is_alphanumeric(c: char) -> (r: bool)
    ensures
        r == (alphabetic(c) || numeric(c)),
        c > '\u{7f}' ==> r == (unicode_alphabetic(c) || unicode_numeric(c)),
{
    c.is_alphanumeric()
}

/// An ASCII decimal digit.
pub open spec fn is_digit(c: char) -> bool {
    '0' <= c && c <= '9'
}

fn ascii_digit(c: char) -> (r: bool)
    ensures
        r == is_digit(c),
{
    '0' <= c && c <= '9'
}

/// A character that may continue a number literal.
pub open spec fn in_number(c: char) -> bool {
    is_digit(c) || c == '.'
}

/// A character that may start an identifier or keyword.
pub open spec fn starts_word(c: char) -> bool {
    alphabetic(c) || c == '_'
}

/// A character that may continue an identifier or keyword.
pub open spec fn in_word(c: char) -> bool {
    alphabetic(c) || numeric(c) || c == '_'
}

// ---------------------------------------------------------------------------
// The lexical grammar
// ---------------------------------------------------------------------------

/// Line and column after reading one character at line `l`, column `c`.
pub open spec fn next_position(l: int, c: int, ch: char) -> (int, int) {
    if ch == '\n' {
        (l + 1, 1)
    } else {
        (l, c + 1)
    }
}

/// Line and column after reading `s[i..j]` from line `l`, column `c`.
pub open spec fn position_after(s: Seq<char>, i: int, j: int, l: int, c: int) -> (int, int)
    decreases j - i,
{
    if j <= i {
        (l, c)
    } else {
        let p = position_after(s, i, j - 1, l, c);
        next_position(p.0, p.1, s[j - 1])
    }
}

/// The end of the run of characters from `i` that satisfy the class.
pub open spec fn number_end(s: Seq<char>, i: int) -> int
    decreases s.len() - i,
{
    if i < 0 || i >= s.len() || !in_number(s[i]) {
        i
    } else {
        number_end(s, i + 1)
    }
}

pub open spec fn word_end(s: Seq<char>, i: int) -> int
    decreases s.len() - i,
{
    if i < 0 || i >= s.len() || !in_word(s[i]) {
        i
    } else {
        word_end(s, i + 1)
    }
}

/// The index of the first `"` at or after `i`, or the length of `s`.
pub open spec fn quote_end(s: Seq<char>, i: int) -> int
    decreases s.len() - i,
{
    if i < 0 || i >= s.len() || s[i] == '"' {
        i
    } else {
        quote_end(s, i + 1)
    }
}

/// The index of the first newline at or after `i`, or the length of `s`.
pub open spec fn line_end(s: Seq<char>, i: int) -> int
    decreases s.len() - i,
{
    if i < 0 || i >= s.len() || s[i] == '\n' {
        i
    } else {
        line_end(s, i + 1)
    }
}

pub proof fn lemma_number_end(s: Seq<char>, i: int)
    requires
        0 <= i <= s.len(),
    ensures
        i <= number_end(s, i) <= s.len(),
        forall|k: int| i <= k < number_end(s, i) ==> in_number(#[trigger] s[k]),
        number_end(s, i) < s.len() ==> !in_number(s[number_end(s, i)]),
    decreases s.len() - i,
{
    if i < s.len() && in_number(s[i]) {
        lemma_number_end(s, i + 1);
    }
}

pub proof fn lemma_word_end(s: Seq<char>, i: int)
    requires
        0 <= i <= s.len(),
    ensures
        i <= word_end(s, i) <= s.len(),
        forall|k: int| i <= k < word_end(s, i) ==> in_word(#[trigger] s[k]),
        word_end(s, i) < s.len() ==> !in_word(s[word_end(s, i)]),
    decreases s.len() - i,
{
    if i < s.len() && in_word(s[i]) {
        lemma_word_end(s, i + 1);
    }
}

pub proof fn lemma_quote_end(s: Seq<char>, i: int)
    requires
        0 <= i <= s.len(),
    ensures
        i <= quote_end(s, i) <= s.len(),
        forall|k: int| i <= k < quote_end(s, i) ==> #[trigger] s[k] != '"',
        quote_end(s, i) < s.len() ==> s[quote_end(s, i)] == '"',
    decreases s.len() - i,
{
    if i < s.len() && s[i] != '"' {
        lemma_quote_end(s, i + 1);
    }
}

pub proof fn lemma_line_end(s: Seq<char>, i: int)
    requires
        0 <= i <= s.len(),
    ensures
        i <= line_end(s, i) <= s.len(),
        forall|k: int| i <= k < line_end(s, i) ==> #[trigger] s[k] != '\n',
        line_end(s, i) < s.len() ==> s[line_end(s, i)] == '\n',
    decreases s.len() - i,
{
    if i < s.len() && s[i] != '\n' {
        lemma_line_end(s, i + 1);
    }
}

pub proof fn lemma_position_after_one(s: Seq<char>, i: int, l: int, c: int)
    ensures
        position_after(s, i, i + 1, l, c) == next_position(l, c, s[i]),
{
    assert(position_after(s, i, i, l, c) == (l, c));
}

/// The number of dots in `t`.
pub open spec fn dot_count(t: Seq<char>) -> int
    decreases t.len(),
{
    if t.len() == 0 {
        0
    } else {
        dot_count(t.drop_last()) + if t.last() == '.' {
            1int
        } else {
            0int
        }
    }
}

/// The kind of a word: a keyword, or an identifier.
pub open spec fn word_kind(w: Seq<char>) -> KindView {
    if w == "let"@ {
        KindView::Let
    } else if w == "fn"@ {
        KindView::Fn
    } else if w == "while"@ {
        KindView::While
    } else if w == "if"@ {
        KindView::If
    } else if w == "else"@ {
        KindView::Else
    } else if w == "true"@ {
        KindView::True
    } else if w == "false"@ {
        KindView::False
    } else {
        KindView::Identifier(w)
    }
}

/// Law: each keyword is read from its own word and from no other: a word is
/// the keyword `let` exactly when its text is `let`, and so on for `fn`,
/// `while`, `if`, `else`, `true` and `false`; every other word is an
/// identifier that keeps its text.
pub proof fn law_word_kinds(w: Seq<char>)
    ensures
        (word_kind(w) == KindView::Let) == (w == "let"@),
        (word_kind(w) == KindView::Fn) == (w == "fn"@),
        (word_kind(w) == KindView::While) == (w == "while"@),
        (word_kind(w) == KindView::If) == (w == "if"@),
        (word_kind(w) == KindView::Else) == (w == "else"@),
        (word_kind(w) == KindView::True) == (w == "true"@),
        (word_kind(w) == KindView::False) == (w == "false"@),
        word_kind(w) is Identifier ==> word_kind(w) == KindView::Identifier(w),
        word_kind(w) is Identifier || word_kind(w) is Let || word_kind(w) is Fn || word_kind(w) is While
            || word_kind(w) is If || word_kind(w) is Else || word_kind(w) is True
            || word_kind(w) is False,
{
    reveal_strlit("let");
    reveal_strlit("fn");
    reveal_strlit("while");
    reveal_strlit("if");
    reveal_strlit("else");
    reveal_strlit("true");
    reveal_strlit("false");
    assert("let"@.len() == 3 && "fn"@.len() == 2 && "while"@.len() == 5 && "if"@.len() == 2);
    assert("else"@.len() == 4 && "true"@.len() == 4 && "false"@.len() == 5);
    assert("fn"@[0] != "if"@[0]);
    assert("else"@[0] != "true"@[0]);
    assert("while"@[0] != "false"@[0]);
}

/// The operator or punctuation that starts at `i`, with its length.
pub open spec fn symbol(s: Seq<char>, i: int) -> Option<(KindView, int)> {
    let c = s[i];
    let next_is = |x: char| i + 1 < s.len() && s[i + 1] == x;
    if c == '+' {
        Some((KindView::Plus, 1))
    } else if c == '-' {
        Some((KindView::Minus, 1))
    } else if c == '*' {
        Some((KindView::Asterisk, 1))
    } else if c == '/' {
        Some((KindView::Slash, 1))
    } else if c == '%' {
        Some((KindView::Percent, 1))
    } else if c == '(' {
        Some((KindView::LParen, 1))
    } else if c == ')' {
        Some((KindView::RParen, 1))
    } else if c == '{' {
        Some((KindView::LBrace, 1))
    } else if c == '}' {
        Some((KindView::RBrace, 1))
    } else if c == ',' {
        Some((KindView::Comma, 1))
    } else if c == ';' {
        Some((KindView::Semicolon, 1))
    } else if c == '=' {
        if next_is('=') {
            Some((KindView::Eq, 2))
        } else {
            Some((KindView::Assign, 1))
        }
    } else if c == '!' {
        if next_is('=') {
            Some((KindView::Ne, 2))
        } else {
            None
        }
    } else if c == '<' {
        if next_is('=') {
            Some((KindView::Le, 2))
        } else {
            Some((KindView::Lt, 1))
        }
    } else if c == '>' {
        if next_is('=') {
            Some((KindView::Ge, 2))
        } else {
            Some((KindView::Gt, 1))
        }
    } else if c == '|' {
        if next_is('>') {
            Some((KindView::Pipeline, 2))
        } else {
            None
        }
    } else {
        None
    }
}

/// A token as the lexical grammar describes it: a number literal is given
/// by its text; the lexer stores the value of that text.
pub enum Lexeme {
    Number(Seq<char>),
    Other(KindView),
}

pub struct Lexed {
    pub lexeme: Lexeme,
    pub line: int,
    pub column: int,
}

/// `x` in front of the tokens of `rest`.
pub open spec fn cons(x: Lexed, rest: Result<Seq<Lexed>, LexErrorView>) -> Result<
    Seq<Lexed>,
    LexErrorView,
> {
    match rest {
        Ok(xs) => Ok(seq![x] + xs),
        Err(e) => Err(e),
    }
}

/// The tokens of `s` from index `i`, read from line `l`, column `c`; the last
/// token is the end-of-input token at the position after the last character.
pub open spec fn lex_from(s: Seq<char>, i: int, l: int, c: int) -> Result<Seq<Lexed>, LexErrorView>
    decreases s.len() - i,
{
    if i < 0 || i >= s.len() {
        Ok(seq![Lexed { lexeme: Lexeme::Other(KindView::EOF), line: l, column: c }])
    } else {
        let ch = s[i];
        if unicode_whitespace(ch) {
            let p = next_position(l, c, ch);
            lex_from(s, i + 1, p.0, p.1)
        } else if ch == '/' && i + 1 < s.len() && s[i + 1] == '/' {
            let j = line_end(s, i + 2);
            proof {
                lemma_line_end(s, i + 2);
            }
            let p = position_after(s, i, j, l, c);
            lex_from(s, j, p.0, p.1)
        } else if is_digit(ch) {
            let j = number_end(s, i);
            proof {
                lemma_number_end(s, i);
            }
            let text = s.subrange(i, j);
            let p = position_after(s, i, j, l, c);
            if dot_count(text) > 1 {
                Err(LexErrorView::InvalidNumber(text, l, c))
            } else {
                cons(Lexed { lexeme: Lexeme::Number(text), line: l, column: c }, lex_from(s, j, p.0, p.1))
            }
        } else if ch == '"' {
            let j = quote_end(s, i + 1);
            proof {
                lemma_quote_end(s, i + 1);
            }
            if j >= s.len() {
                Err(LexErrorView::UnterminatedString(l, c))
            } else {
                let p = position_after(s, i, j + 1, l, c);
                cons(
                    Lexed { lexeme: Lexeme::Other(KindView::Str(s.subrange(i + 1, j))), line: l, column: c },
                    lex_from(s, j + 1, p.0, p.1),
                )
            }
        } else if starts_word(ch) {
            let j = word_end(s, i);
            proof {
                lemma_word_end(s, i);
            }
            let p = position_after(s, i, j, l, c);
            cons(
                Lexed { lexeme: Lexeme::Other(word_kind(s.subrange(i, j))), line: l, column: c },
                lex_from(s, j, p.0, p.1),
            )
        } else {
            match symbol(s, i) {
                Some((k, n)) => cons(
                    Lexed { lexeme: Lexeme::Other(k), line: l, column: c },
                    lex_from(s, i + n, l, c + n),
                ),
                None => Err(LexErrorView::UnexpectedChar(ch, l, c)),
            }
        }
    }
}

/// The tokens of the whole text `s`.
pub open spec fn lex(s: Seq<char>) -> Result<Seq<Lexed>, LexErrorView> {
    lex_from(s, 0, 1, 1)
}

/// The exists-a-witness form of "`f` may give `b` for the text `t`".
pub open spec fn value_of<F: Fn(String) -> u64>(f: F, t: Seq<char>, b: u64) -> bool {
    exists|s: String| s@ == t && #[trigger] f.ensures((s,), b)
}

/// A token of the lexer agrees with a token of the grammar: same position,
/// same kind, and a number holds a value that `f` gives for its text.
pub open spec fn agrees<F: Fn(String) -> u64>(t: Token, x: Lexed, f: F) -> bool {
    &&& t.line == x.line
    &&& t.column == x.column
    &&& match x.lexeme {
        Lexeme::Number(text) => t.kind matches TokenKind::Number(b) && value_of(f, text, b),
        Lexeme::Other(k) => t.kind@ == k,
    }
}

pub open spec fn all_agree<F: Fn(String) -> u64>(ts: Seq<Token>, xs: Seq<Lexed>, f: F) -> bool {
    ts.len() == xs.len() && forall|k: int| 0 <= k < ts.len() ==> agrees(#[trigger] ts[k], xs[k], f)
}

/// The tokens of a grammar result end with the end-of-input token, which
/// occurs nowhere else.
pub open spec fn ends_with_eof(xs: Seq<Lexed>) -> bool {
    &&& xs.len() > 0
    &&& xs.last().lexeme == Lexeme::Other(KindView::EOF)
    &&& forall|k: int| 0 <= k < xs.len() - 1 ==> xs[k].lexeme != Lexeme::Other(KindView::EOF)
}

proof fn lemma_cons_shape(x: Lexed, rest: Result<Seq<Lexed>, LexErrorView>)
    requires
        x.lexeme != Lexeme::Other(KindView::EOF),
        rest matches Ok(ys) ==> ends_with_eof(ys),
    ensures
        cons(x, rest) matches Ok(xs) ==> ends_with_eof(xs),
{
    if let Ok(ys) = rest {
        let xs = seq![x] + ys;
        assert(xs.last() == ys.last());
        assert forall|k: int| 0 <= k < xs.len() - 1 implies xs[k].lexeme != Lexeme::Other(
            KindView::EOF,
        ) by {
            if k > 0 {
                assert(xs[k] == ys[k - 1]);
            }
        }
    }
}

/// Law: when lexing succeeds, the tokens end with the end-of-input token and
/// hold it nowhere else.
pub proof fn law_lex_ends_with_eof(s: Seq<char>, i: int, l: int, c: int)
    ensures
        lex_from(s, i, l, c) matches Ok(xs) ==> ends_with_eof(xs),
    decreases s.len() - i,
{
    if i < 0 || i >= s.len() {
        return;
    }
    let ch = s[i];
    if unicode_whitespace(ch) {
        let p = next_position(l, c, ch);
        law_lex_ends_with_eof(s, i + 1, p.0, p.1);
    } else if ch == '/' && i + 1 < s.len() && s[i + 1] == '/' {
        let j = line_end(s, i + 2);
        lemma_line_end(s, i + 2);
        let p = position_after(s, i, j, l, c);
        law_lex_ends_with_eof(s, j, p.0, p.1);
    } else if is_digit(ch) {
        let j = number_end(s, i);
        lemma_number_end(s, i);
        let p = position_after(s, i, j, l, c);
        law_lex_ends_with_eof(s, j, p.0, p.1);
        lemma_cons_shape(
            Lexed { lexeme: Lexeme::Number(s.subrange(i, j)), line: l, column: c },
            lex_from(s, j, p.0, p.1),
        );
    } else if ch == '"' {
        let j = quote_end(s, i + 1);
        lemma_quote_end(s, i + 1);
        if j < s.len() {
            let p = position_after(s, i, j + 1, l, c);
            law_lex_ends_with_eof(s, j + 1, p.0, p.1);
            lemma_cons_shape(
                Lexed { lexeme: Lexeme::Other(KindView::Str(s.subrange(i + 1, j))), line: l, column: c },
                lex_from(s, j + 1, p.0, p.1),
            );
        }
    } else if starts_word(ch) {
        let j = word_end(s, i);
        lemma_word_end(s, i);
        let p = position_after(s, i, j, l, c);
        law_lex_ends_with_eof(s, j, p.0, p.1);
        lemma_cons_shape(
            Lexed { lexeme: Lexeme::Other(word_kind(s.subrange(i, j))), line: l, column: c },
            lex_from(s, j, p.0, p.1),
        );
    } else {
        if let Some((k, n)) = symbol(s, i) {
            law_lex_ends_with_eof(s, i + n, l, c + n);
            lemma_cons_shape(Lexed { lexeme: Lexeme::Other(k), line: l, column: c }, lex_from(s, i + n, l, c + n));
        }
    }
}

/// The tokens so far in front of what remains.
pub open spec fn combine(prefix: Seq<Lexed>, rest: Result<Seq<Lexed>, LexErrorView>) -> Result<
    Seq<Lexed>,
    LexErrorView,
> {
    match rest {
        Ok(xs) => Ok(prefix + xs),
        Err(e) => Err(e),
    }
}

proof fn lemma_combine_cons(prefix: Seq<Lexed>, x: Lexed, rest: Result<Seq<Lexed>, LexErrorView>)
    ensures
        combine(prefix, cons(x, rest)) == combine(prefix.push(x), rest),
{
    if let Ok(xs) = rest {
        assert(prefix + (seq![x] + xs) =~= prefix.push(x) + xs);
    }
}

/// The kind of a word: a keyword, or an identifier.
fn keyword_or_identifier(word: String) -> (k: TokenKind)
    ensures
        k@ == word_kind(word@),
{
    if str_eq(word.as_str(), "let") {
        TokenKind::Let
    } else if str_eq(word.as_str(), "fn") {
        TokenKind::Fn
    } else if str_eq(word.as_str(), "while") {
        TokenKind::While
    } else if str_eq(word.as_str(), "if") {
        TokenKind::If
    } else if str_eq(word.as_str(), "else") {
        TokenKind::Else
    } else if str_eq(word.as_str(), "true") {
        TokenKind::True
    } else if str_eq(word.as_str(), "false") {
        TokenKind::False
    } else {
        TokenKind::Identifier(word)
    }
}

/// The lexer: a cursor over the characters of a source text.
pub struct Lexer<'a> {
    _input: &'a str,
    chars: Vec<char>,
    position: usize,
    line: usize,
    column: usize,
}

impl<'a> Lexer<'a> {
    /// The characters of the source text.
    pub closed spec fn text(&self) -> Seq<char> {
        self.chars@
    }

    /// The index of the next character to read.
    pub closed spec fn pos(&self) -> int {
        self.position as int
    }

    /// The line of the next character.
    pub closed spec fn cur_line(&self) -> int {
        self.line as int
    }

    /// The column of the next character.
    pub closed spec fn cur_column(&self) -> int {
        self.column as int
    }

    /// The cursor lies within the text, and the line and column of every
    /// character still to read fit in a `usize`.
    pub closed spec fn wf(&self) -> bool {
        &&& self.position <= self.chars@.len() < usize::MAX
        &&& self.line + (self.chars@.len() - self.position) <= usize::MAX
        &&& self.column + (self.chars@.len() - self.position) <= usize::MAX
    }

    /// A lexer at the start of `input`: line 1, column 1.
    pub fn new(input: &'a str) -> (lx: Self)
        requires
            input@.len() < usize::MAX,
        ensures
            lx.wf(),
            lx.text() == input@,
            lx.pos() == 0,
            lx.cur_line() == 1,
            lx.cur_column() == 1,
    {
        let n = input.unicode_len();
        let mut chars: Vec<char> = Vec::new();
        let mut i: usize = 0;
        while i < n
            invariant
                n == input@.len(),
                i <= n,
                chars@ == input@.subrange(0, i as int),
            decreases n - i,
        {
            chars.push(input.get_char(i));
            i += 1;
            assert(chars@ =~= input@.subrange(0, i as int));
        }
        assert(input@.subrange(0, n as int) =~= input@);
        Lexer { _input: input, chars, position: 0, line: 1, column: 1 }
    }

    /// The character at the cursor, if any.
    fn peek(&self) -> (r: Option<char>)
        ensures
            r == (if self.position < self.chars@.len() {
                Some(self.chars@[self.position as int])
            } else {
                None::<char>
            }),
    {
        if self.position < self.chars.len() {
            Some(self.chars[self.position])
        } else {
            None
        }
    }

    /// The character after the one at the cursor, if any.
    fn peek_next(&self) -> (r: Option<char>)
        requires
            self.wf(),
        ensures
            r == (if self.position + 1 < self.chars@.len() {
                Some(self.chars@[self.position + 1])
            } else {
                None::<char>
            }),
    {
        if self.position + 1 < self.chars.len() {
            Some(self.chars[self.position + 1])
        } else {
            None
        }
    }

    /// Reads the character at the cursor, moving the line and column past it;
    /// at the end of the text, reads nothing. Line and column that name the
    /// cursor's true place in the text (counted from line 1, column 1) go on
    /// naming it.
    fn advance(&mut self) -> (r: Option<char>)
        requires
            old(self).wf(),
        ensures
            final(self).wf(),
            final(self).chars == old(self).chars,
            old(self).position < old(self).chars@.len() ==> {
                &&& r == Some(old(self).chars@[old(self).position as int])
                &&& final(self).position == old(self).position + 1
                &&& (final(self).line as int, final(self).column as int) == next_position(
                    old(self).line as int,
                    old(self).column as int,
                    old(self).chars@[old(self).position as int],
                )
            },
            old(self).position >= old(self).chars@.len() ==> r is None && *final(self) == *old(
                self,
            ),
            (old(self).line as int, old(self).column as int) == position_after(
                old(self).chars@,
                0,
                old(self).position as int,
                1,
                1,
            ) ==> (final(self).line as int, final(self).column as int) == position_after(
                final(self).chars@,
                0,
                final(self).position as int,
                1,
                1,
            ),
    {
        if self.position >= self.chars.len() {
            return None;
        }
        let ch = self.chars[self.position];
        self.position += 1;
        if ch == '\n' {
            self.line += 1;
            self.column = 1;
        } else {
            self.column += 1;
        }
        Some(ch)
    }

    /// Reads the tokens from the cursor to the end of the text; the last is
    /// the end-of-input token. The value of each number literal (digits with
    /// at most one dot) is what `number_value` gives for its text.
    pub fn tokenize<F: Fn(String) -> u64>(&mut self, number_value: F) -> (r: Result<
        Vec<Token>,
        LexError,
    >)
        requires
            old(self).wf(),
            forall|t: String| number_value.requires((t,)),
        ensures
            final(self).wf(),
            final(self).text() == old(self).text(),
            match lex_from(old(self).text(), old(self).pos(), old(self).cur_line(), old(self).cur_column()) {
                Ok(xs) => r matches Ok(ts) && all_agree(ts@, xs, number_value),
                Err(e) => r matches Err(x) && x@ == e,
            },
            r matches Ok(ts) ==> {
                &&& ts@.len() > 0
                &&& ts@.last().kind@ is EOF
                &&& forall|k: int| 0 <= k < ts@.len() - 1 ==> !(ts@[k].kind@ is EOF)
            },
    {
        let ghost s = self.chars@;
        let ghost whole = lex_from(s, self.position as int, self.line as int, self.column as int);
        let ghost mut prefix: Seq<Lexed> = Seq::empty();
        let mut tokens: Vec<Token> = Vec::new();
        assert(whole == combine(prefix, whole)) by {
            if let Ok(xs) = whole {
                assert(prefix + xs =~= xs);
            }
        }
        while self.position < self.chars.len()
            invariant
                self.wf(),
                self.chars@ == s,
                self.chars == old(self).chars,
                forall|t: String| number_value.requires((t,)),
                whole == lex_from(s, old(self).position as int, old(self).line as int, old(self).column as int),
                whole == combine(
                    prefix,
                    lex_from(s, self.position as int, self.line as int, self.column as int),
                ),
                all_agree(tokens@, prefix, number_value),
            decreases s.len() - self.position,
        {
            let ch = self.chars[self.position];
            let ghost i = self.position as int;
            let ghost l = self.line as int;
            let ghost c = self.column as int;
            if is_whitespace(ch) {
                self.advance();
                continue;
            }
            let comment = match self.peek_next() {
                Some(c) => ch == '/' && c == '/',
                None => false,
            };
            if comment {
                proof {
                    lemma_line_end(s, i + 2);
                }
                self.skip_comment();
                continue;
            }
            let start_line = self.line;
            let start_col = self.column;
            if ascii_digit(ch) {
                proof {
                    lemma_number_end(s, i);
                }
                let (text, dots) = self.scan_number();
                if dots > 1 {
                    return Err(LexError::InvalidNumber(text, start_line, start_col));
                }
                let ghost t = text@;
                let ghost given = text;
                let bits = number_value(text);
                let tok = Token { kind: TokenKind::Number(bits), line: start_line, column: start_col };
                let ghost x = Lexed { lexeme: Lexeme::Number(t), line: l, column: c };
                proof {
                    assert(value_of(number_value, t, bits)) by {
                        assert(given@ == t && number_value.ensures((given,), bits));
                    }
                    lemma_combine_cons(prefix, x, lex_from(s, self.position as int, self.line as int, self.column as int));
                    prefix = prefix.push(x);
                }
                tokens.push(tok);
                continue;
            }
            if ch == '"' {
                proof {
                    lemma_quote_end(s, i + 1);
                }
                match self.scan_string() {
                    None => return Err(LexError::UnterminatedString(start_line, start_col)),
                    Some(text) => {
                        let ghost x = Lexed {
                            lexeme: Lexeme::Other(KindView::Str(text@)),
                            line: l,
                            column: c,
                        };
                        proof {
                            lemma_combine_cons(prefix, x, lex_from(s, self.position as int, self.line as int, self.column as int));
                            prefix = prefix.push(x);
                        }
                        tokens.push(Token { kind: TokenKind::String(text), line: start_line, column: start_col });
                        continue;
                    },
                }
            }
            if is_alphabetic(ch) || ch == '_' {
                proof {
                    lemma_word_end(s, i);
                }
                let word = self.scan_word();
                let kind = keyword_or_identifier(word);
                let ghost x = Lexed { lexeme: Lexeme::Other(kind@), line: l, column: c };
                proof {
                    lemma_combine_cons(prefix, x, lex_from(s, self.position as int, self.line as int, self.column as int));
                    prefix = prefix.push(x);
                }
                tokens.push(Token { kind, line: start_line, column: start_col });
                continue;
            }
            match self.scan_symbol() {
                None => return Err(LexError::UnexpectedChar(ch, start_line, start_col)),
                Some(kind) => {
                    let ghost x = Lexed { lexeme: Lexeme::Other(kind@), line: l, column: c };
                    proof {
                        lemma_combine_cons(prefix, x, lex_from(s, self.position as int, self.line as int, self.column as int));
                        prefix = prefix.push(x);
                    }
                    tokens.push(Token { kind, line: start_line, column: start_col });
                },
            }
        }
        let eof = Token { kind: TokenKind::EOF, line: self.line, column: self.column };
        let ghost x = Lexed { lexeme: Lexeme::Other(KindView::EOF), line: self.line as int, column: self.column as int };
        let ghost before = prefix;
        proof {
            prefix = prefix.push(x);
            assert(before + seq![x] =~= prefix);
        }
        tokens.push(eof);
        proof {
            law_lex_ends_with_eof(s, old(self).position as int, old(self).line as int, old(self).column as int);
            assert forall|k: int| 0 <= k < tokens@.len() - 1 implies !(tokens@[k].kind@ is EOF) by {
                assert(agrees(tokens@[k], prefix[k], number_value));
            }
        }
        Ok(tokens)
    }

    /// Skips a comment that starts at the cursor, up to the end of its line.
    fn skip_comment(&mut self)
        requires
            old(self).wf(),
            old(self).position + 1 < old(self).chars@.len(),
        ensures
            final(self).wf(),
            final(self).chars == old(self).chars,
            final(self).position == line_end(old(self).chars@, old(self).position + 2),
            (final(self).line as int, final(self).column as int) == position_after(
                old(self).chars@,
                old(self).position as int,
                final(self).position as int,
                old(self).line as int,
                old(self).column as int,
            ),
    {
        let ghost s = self.chars@;
        let ghost start = self.position as int;
        let ghost l0 = self.line as int;
        let ghost c0 = self.column as int;
        self.advance();
        proof {
            lemma_position_after_one(s, start, l0, c0);
        }
        self.advance();
        assert(position_after(s, start, start + 2, l0, c0) == (self.line as int, self.column as int));
        while self.position < self.chars.len() && self.chars[self.position] != '\n'
            invariant
                self.wf(),
                self.chars@ == s,
                self.chars == old(self).chars,
                start == old(self).position as int,
                l0 == old(self).line as int,
                c0 == old(self).column as int,
                start + 2 <= self.position <= s.len(),
                line_end(s, start + 2) == line_end(s, self.position as int),
                (self.line as int, self.column as int) == position_after(
                    s,
                    start,
                    self.position as int,
                    l0,
                    c0,
                ),
            decreases s.len() - self.position,
        {
            self.advance();
        }
    }

    /// Reads the run of digits and dots at the cursor; gives its text and the
    /// number of dots in it.
    fn scan_number(&mut self) -> (r: (String, usize))
        requires
            old(self).wf(),
        ensures
            final(self).wf(),
            final(self).chars == old(self).chars,
            final(self).position == number_end(old(self).chars@, old(self).position as int),
            r.0@ == old(self).chars@.subrange(
                old(self).position as int,
                final(self).position as int,
            ),
            r.1 == dot_count(r.0@),
            (final(self).line as int, final(self).column as int) == position_after(
                old(self).chars@,
                old(self).position as int,
                final(self).position as int,
                old(self).line as int,
                old(self).column as int,
            ),
    {
        let ghost s = self.chars@;
        let ghost start = self.position as int;
        let ghost l0 = self.line as int;
        let ghost c0 = self.column as int;
        let mut text = String::new();
        let mut dots: usize = 0;
        assert(text@ =~= s.subrange(start, self.position as int));
        while self.position < self.chars.len() && (ascii_digit(self.chars[self.position])
            || self.chars[self.position] == '.')
            invariant
                self.wf(),
                self.chars@ == s,
                self.chars == old(self).chars,
                start == old(self).position as int,
                l0 == old(self).line as int,
                c0 == old(self).column as int,
                start <= self.position <= s.len(),
                number_end(s, start) == number_end(s, self.position as int),
                text@ == s.subrange(start, self.position as int),
                dots == dot_count(text@),
                dots <= self.position - start,
                (self.line as int, self.column as int) == position_after(
                    s,
                    start,
                    self.position as int,
                    l0,
                    c0,
                ),
            decreases s.len() - self.position,
        {
            let c = self.chars[self.position];
            let ghost p = self.position as int;
            assert(s.subrange(start, p + 1) =~= s.subrange(start, p).push(c));
            if c == '.' {
                dots += 1;
            }
            let ghost before = text@;
            push_char(&mut text, c);
            assert(text@.drop_last() =~= before);
            self.advance();
        }
        (text, dots)
    }

    /// Reads the identifier or keyword that starts at the cursor.
    fn scan_word(&mut self) -> (r: String)
        requires
            old(self).wf(),
            old(self).position < old(self).chars@.len(),
            starts_word(old(self).chars@[old(self).position as int]),
        ensures
            final(self).wf(),
            final(self).chars == old(self).chars,
            final(self).position == word_end(old(self).chars@, old(self).position as int),
            r@ == old(self).chars@.subrange(
                old(self).position as int,
                final(self).position as int,
            ),
            (final(self).line as int, final(self).column as int) == position_after(
                old(self).chars@,
                old(self).position as int,
                final(self).position as int,
                old(self).line as int,
                old(self).column as int,
            ),
    {
        let ghost s = self.chars@;
        let ghost start = self.position as int;
        let ghost l0 = self.line as int;
        let ghost c0 = self.column as int;
        let mut text = String::new();
        push_char(&mut text, self.chars[self.position]);
        self.advance();
        assert(text@ =~= s.subrange(start, self.position as int));
        proof {
            lemma_position_after_one(s, start, l0, c0);
        }
        while self.position < self.chars.len() && (is_alphanumeric(self.chars[self.position])
            || self.chars[self.position] == '_')
            invariant
                self.wf(),
                self.chars@ == s,
                self.chars == old(self).chars,
                start == old(self).position as int,
                l0 == old(self).line as int,
                c0 == old(self).column as int,
                start < self.position <= s.len(),
                word_end(s, start + 1) == word_end(s, self.position as int),
                text@ == s.subrange(start, self.position as int),
                (self.line as int, self.column as int) == position_after(
                    s,
                    start,
                    self.position as int,
                    l0,
                    c0,
                ),
            decreases s.len() - self.position,
        {
            let ghost p = self.position as int;
            assert(s.subrange(start, p + 1) =~= s.subrange(start, p).push(s[p]));
            push_char(&mut text, self.chars[self.position]);
            self.advance();
        }
        assert(word_end(s, start) == word_end(s, start + 1));
        text
    }

    /// Reads a string literal whose opening quote is at the cursor; gives its
    /// contents, or nothing when the closing quote is missing.
    fn scan_string(&mut self) -> (r: Option<String>)
        requires
            old(self).wf(),
            old(self).position < old(self).chars@.len(),
        ensures
            final(self).wf(),
            final(self).chars == old(self).chars,
            ({
                let s = old(self).chars@;
                let i = old(self).position as int;
                let j = quote_end(s, i + 1);
                if j >= s.len() {
                    r is None
                } else {
                    &&& r matches Some(t) && t@ == s.subrange(i + 1, j)
                    &&& final(self).position == j + 1
                    &&& (final(self).line as int, final(self).column as int) == position_after(
                        s,
                        i,
                        j + 1,
                        old(self).line as int,
                        old(self).column as int,
                    )
                }
            }),
    {
        let ghost s = self.chars@;
        let ghost start = self.position as int;
        let ghost l0 = self.line as int;
        let ghost c0 = self.column as int;
        self.advance();
        proof {
            lemma_position_after_one(s, start, l0, c0);
        }
        let mut text = String::new();
        assert(text@ =~= s.subrange(start + 1, self.position as int));
        while self.position < self.chars.len() && self.chars[self.position] != '"'
            invariant
                self.wf(),
                self.chars@ == s,
                self.chars == old(self).chars,
                start == old(self).position as int,
                l0 == old(self).line as int,
                c0 == old(self).column as int,
                start < self.position <= s.len(),
                quote_end(s, start + 1) == quote_end(s, self.position as int),
                text@ == s.subrange(start + 1, self.position as int),
                (self.line as int, self.column as int) == position_after(
                    s,
                    start,
                    self.position as int,
                    l0,
                    c0,
                ),
            decreases s.len() - self.position,
        {
            let ghost p = self.position as int;
            assert(s.subrange(start + 1, p + 1) =~= s.subrange(start + 1, p).push(s[p]));
            push_char(&mut text, self.chars[self.position]);
            self.advance();
        }
        if self.position >= self.chars.len() {
            return None;
        }
        self.advance();
        Some(text)
    }

    /// Reads the operator or punctuation at the cursor, if one starts there.
    fn scan_symbol(&mut self) -> (r: Option<TokenKind>)
        requires
            old(self).wf(),
            old(self).position < old(self).chars@.len(),
        ensures
            final(self).wf(),
            final(self).chars == old(self).chars,
            match symbol(old(self).chars@, old(self).position as int) {
                Some((k, n)) => {
                    &&& r matches Some(t) && t@ == k
                    &&& final(self).position == old(self).position + n
                    &&& final(self).line == old(self).line
                    &&& final(self).column == old(self).column + n
                },
                None => r is None,
            },
    {
        let ch = match self.peek() {
            Some(c) => c,
            None => return None,
        };
        let (has_next, next) = match self.peek_next() {
            Some(c) => (true, c),
            None => (false, '\0'),
        };
        let (kind, n) = if ch == '+' {
            (TokenKind::Plus, 1)
        } else if ch == '-' {
            (TokenKind::Minus, 1)
        } else if ch == '*' {
            (TokenKind::Asterisk, 1)
        } else if ch == '/' {
            (TokenKind::Slash, 1)
        } else if ch == '%' {
            (TokenKind::Percent, 1)
        } else if ch == '(' {
            (TokenKind::LParen, 1)
        } else if ch == ')' {
            (TokenKind::RParen, 1)
        } else if ch == '{' {
            (TokenKind::LBrace, 1)
        } else if ch == '}' {
            (TokenKind::RBrace, 1)
        } else if ch == ',' {
            (TokenKind::Comma, 1)
        } else if ch == ';' {
            (TokenKind::Semicolon, 1)
        } else if ch == '=' {
            if has_next && next == '=' {
                (TokenKind::Eq, 2)
            } else {
                (TokenKind::Assign, 1)
            }
        } else if ch == '!' {
            if has_next && next == '=' {
                (TokenKind::Ne, 2)
            } else {
                return None;
            }
        } else if ch == '<' {
            if has_next && next == '=' {
                (TokenKind::Le, 2)
            } else {
                (TokenKind::Lt, 1)
            }
        } else if ch == '>' {
            if has_next && next == '=' {
                (TokenKind::Ge, 2)
            } else {
                (TokenKind::Gt, 1)
            }
        } else if ch == '|' {
            if has_next && next == '>' {
                (TokenKind::Pipeline, 2)
            } else {
                return None;
            }
        } else {
            return None;
        };
        let ghost s = self.chars@;
        let ghost p0 = self.position as int;
        self.advance();
        if n == 2 {
            self.advance();
        }
        Some(kind)
    }
}

} // verus!
