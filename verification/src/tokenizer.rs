//! From characters to tokens.
use crate::names::{characters, compare, Order};
use crate::values::Decimal;
use vstd::prelude::*;
use vstd::string::*;

verus! {

/// A reserved word.
#[derive(Clone, Copy, Debug, PartialEq, Eq, Structural)]
pub enum Keyword {
    True,
    False,
    If,
    Then,
    Else,
    Fun,
    New,
    Let,
    Val,
    In,
    And,
    Do,
    Or,
    Of,
    Replicate,
    Run,
    End,
}

/// The reserved word that `w` is, if it is one.
pub open spec fn keyword_spec(w: Seq<char>) -> Option<Keyword> {
    if w == "true"@ {
        Some(Keyword::True)
    } else if w == "false"@ {
        Some(Keyword::False)
    } else if w == "if"@ {
        Some(Keyword::If)
    } else if w == "then"@ {
        Some(Keyword::Then)
    } else if w == "else"@ {
        Some(Keyword::Else)
    } else if w == "fun"@ {
        Some(Keyword::Fun)
    } else if w == "new"@ {
        Some(Keyword::New)
    } else if w == "let"@ {
        Some(Keyword::Let)
    } else if w == "val"@ {
        Some(Keyword::Val)
    } else if w == "in"@ {
        Some(Keyword::In)
    } else if w == "and"@ {
        Some(Keyword::And)
    } else if w == "do"@ {
        Some(Keyword::Do)
    } else if w == "or"@ {
        Some(Keyword::Or)
    } else if w == "of"@ {
        Some(Keyword::Of)
    } else if w == "replicate"@ {
        Some(Keyword::Replicate)
    } else if w == "run"@ {
        Some(Keyword::Run)
    } else if w == "end"@ {
        Some(Keyword::End)
    } else {
        None
    }
}

/// Whether two texts are the same.
fn same(a: &str, b: &str) -> (r: bool)
    ensures
        r == (a@ == b@),
{
    compare(a, b) == Order::Same
}

impl<'a> vstd::std_specs::convert::TryFromSpecImpl<&'a str> for Keyword {
    open spec fn obeys_try_from_spec() -> bool {
        true
    }

    open spec fn try_from_spec(s: &'a str) -> Result<Keyword, ()> {
        match keyword_spec(s@) {
            Some(k) => Ok(k),
            None => Err(()),
        }
    }
}

impl<'a> TryFrom<&'a str> for Keyword {
    type Error = ();

    /// The reserved word that `s` is, or `Err` where it is none.
    fn try_from(s: &'a str) -> (r: Result<Keyword, ()>)
        ensures
            r is Ok <==> keyword_spec(s@) is Some,
            r matches Ok(k) ==> keyword_spec(s@) == Some(k),
    {
        if same(s, "true") {
            Ok(Keyword::True)
        } else if same(s, "false") {
            Ok(Keyword::False)
        } else if same(s, "if") {
            Ok(Keyword::If)
        } else if same(s, "then") {
            Ok(Keyword::Then)
        } else if same(s, "else") {
            Ok(Keyword::Else)
        } else if same(s, "fun") {
            Ok(Keyword::Fun)
        } else if same(s, "new") {
            Ok(Keyword::New)
        } else if same(s, "let") {
            Ok(Keyword::Let)
        } else if same(s, "val") {
            Ok(Keyword::Val)
        } else if same(s, "in") {
            Ok(Keyword::In)
        } else if same(s, "and") {
            Ok(Keyword::And)
        } else if same(s, "do") {
            Ok(Keyword::Do)
        } else if same(s, "or") {
            Ok(Keyword::Or)
        } else if same(s, "of") {
            Ok(Keyword::Of)
        } else if same(s, "replicate") {
            Ok(Keyword::Replicate)
        } else if same(s, "run") {
            Ok(Keyword::Run)
        } else if same(s, "end") {
            Ok(Keyword::End)
        } else {
            Err(())
        }
    }
}

/// A token of the source language.
#[derive(Debug, PartialEq)]
pub enum Token {
    QMark,
    ExMark,
    At,
    Equals,
    Less,
    Greater,
    LEq,
    GEq,
    NotEqual,
    LPar,
    RPar,
    Colon,
    Semicolon,
    Pipe,
    Underscore,
    Comma,
    Plus,
    Dash,
    Star,
    Slash,
    RightArrow,
    Integer(i64),
    Float(Decimal),
    Keyword(Keyword),
    Identifier(String),
}

/// What a [`Token`] is, with an identifier as a sequence of characters.
pub ghost enum TokenView {
    QMark,
    ExMark,
    At,
    Equals,
    Less,
    Greater,
    LEq,
    GEq,
    NotEqual,
    LPar,
    RPar,
    Colon,
    Semicolon,
    Pipe,
    Underscore,
    Comma,
    Plus,
    Dash,
    Star,
    Slash,
    RightArrow,
    Integer(i64),
    Float(Decimal),
    Keyword(Keyword),
    Identifier(Seq<char>),
}

impl View for Token {
    type V = TokenView;

    open spec fn view(&self) -> TokenView {
        match self {
            Token::QMark => TokenView::QMark,
            Token::ExMark => TokenView::ExMark,
            Token::At => TokenView::At,
            Token::Equals => TokenView::Equals,
            Token::Less => TokenView::Less,
            Token::Greater => TokenView::Greater,
            Token::LEq => TokenView::LEq,
            Token::GEq => TokenView::GEq,
            Token::NotEqual => TokenView::NotEqual,
            Token::LPar => TokenView::LPar,
            Token::RPar => TokenView::RPar,
            Token::Colon => TokenView::Colon,
            Token::Semicolon => TokenView::Semicolon,
            Token::Pipe => TokenView::Pipe,
            Token::Underscore => TokenView::Underscore,
            Token::Comma => TokenView::Comma,
            Token::Plus => TokenView::Plus,
            Token::Dash => TokenView::Dash,
            Token::Star => TokenView::Star,
            Token::Slash => TokenView::Slash,
            Token::RightArrow => TokenView::RightArrow,
            Token::Integer(i) => TokenView::Integer(*i),
            Token::Float(f) => TokenView::Float(*f),
            Token::Keyword(k) => TokenView::Keyword(*k),
            Token::Identifier(s) => TokenView::Identifier(s@),
        }
    }
}

/// The tokens of a list, one by one.
pub open spec fn tokens_view(ts: Seq<Token>) -> Seq<TokenView> {
    Seq::new(ts.len(), |k: int| ts[k]@)
}

impl Clone for Token {
    fn clone(&self) -> (r: Token)
        ensures
            r@ == self@,
    {
        match self {
            Token::QMark => Token::QMark,
            Token::ExMark => Token::ExMark,
            Token::At => Token::At,
            Token::Equals => Token::Equals,
            Token::Less => Token::Less,
            Token::Greater => Token::Greater,
            Token::LEq => Token::LEq,
            Token::GEq => Token::GEq,
            Token::NotEqual => Token::NotEqual,
            Token::LPar => Token::LPar,
            Token::RPar => Token::RPar,
            Token::Colon => Token::Colon,
            Token::Semicolon => Token::Semicolon,
            Token::Pipe => Token::Pipe,
            Token::Underscore => Token::Underscore,
            Token::Comma => Token::Comma,
            Token::Plus => Token::Plus,
            Token::Dash => Token::Dash,
            Token::Star => Token::Star,
            Token::Slash => Token::Slash,
            Token::RightArrow => Token::RightArrow,
            Token::Integer(i) => Token::Integer(*i),
            Token::Float(f) => Token::Float(*f),
            Token::Keyword(k) => Token::Keyword(*k),
            Token::Identifier(s) => Token::Identifier(s.clone()),
        }
    }
}

/// Why a text is no list of tokens.
#[derive(Clone, Copy, Debug, PartialEq, Eq, Structural)]
pub enum LexError {
    /// A character that no token starts with.
    UnexpectedCharacter,
    /// A point after the digits of a number, and no digit after the point.
    MissingFraction,
    /// A number with more digits than the machine holds.
    NumberTooLarge,
}

/// A class of characters.
#[derive(Clone, Copy, Debug, PartialEq, Eq, Structural)]
pub enum Class {
    Space,
    Digit,
    Letter,
    AlphaNum,
}

/// Whether `char::is_whitespace` holds of the character.
pub uninterp spec fn whitespace(c: char) -> bool;

/// Whether `char::is_alphabetic` holds of the character.
pub uninterp spec fn alphabetic(c: char) -> bool;

/// Whether `char::is_alphanumeric` holds of the character.
pub uninterp spec fn alphanumeric(c: char) -> bool;

/// A wrapper of `char::is_whitespace`: whether the character has the
/// Unicode property `White_Space`. The contract gives the answer a name.
#[verifier::external_body]
fn is_whitespace(c: char) -> (b: bool)
    ensures
        b == whitespace(c),
{
    c.is_whitespace()
}

/// A wrapper of `char::is_alphabetic`: whether the character has the
/// Unicode property `Alphabetic`. The contract gives the answer a name.
#[verifier::external_body]
fn is_alphabetic(c: char) -> (b: bool)
    ensures
        b == alphabetic(c),
{
    c.is_alphabetic()
}

/// A wrapper of `char::is_alphanumeric`: whether the character is
/// alphabetic or numeric by its Unicode properties. The contract gives the
/// answer a name.
#[verifier::external_body]
fn is_alphanumeric(c: char) -> (b: bool)
    ensures
        b == alphanumeric(c),
{
    c.is_alphanumeric()
}

/// Whether the character is one of the ten decimal digits.
pub open spec fn digit(c: char) -> bool {
    '0' <= c <= '9'
}

/// Whether a symbol starts with the character.
pub open spec fn symbolic(c: char) -> bool {
    c == '?' || c == '!' || c == '@' || c == '=' || c == ';' || c == '|' || c == '_' || c == ','
        || c == '+' || c == '-' || c == '*' || c == '/' || c == '<' || c == '>' || c == ':'
}

/// Whether the character is of the class.
pub open spec fn member(class: Class, c: char) -> bool {
    match class {
        Class::Space => whitespace(c),
        Class::Digit => digit(c),
        Class::Letter => alphabetic(c),
        Class::AlphaNum => alphanumeric(c),
    }
}

/// Where the longest run of characters of the class that starts at `i` ends.
pub open spec fn run_end(s: Seq<char>, i: int, class: Class) -> int
    decreases s.len() - i,
{
    if 0 <= i < s.len() && member(class, s[i]) {
        run_end(s, i + 1, class)
    } else {
        i
    }
}

/// A run ends at or after its start, within the text, and holds characters
/// of its class only.
pub proof fn lemma_run_end(s: Seq<char>, i: int, class: Class)
    requires
        0 <= i <= s.len(),
    ensures
        i <= run_end(s, i, class) <= s.len(),
        forall|k: int| i <= k < run_end(s, i, class) ==> member(class, #[trigger] s[k]),
        run_end(s, i, class) < s.len() ==> !member(class, s[run_end(s, i, class)]),
    decreases s.len() - i,
{
    if i < s.len() && member(class, s[i]) {
        lemma_run_end(s, i + 1, class);
    }
}

/// Whether the character is of the class.
fn is_member(class: Class, c: char) -> (b: bool)
    ensures
        b == member(class, c),
{
    match class {
        Class::Space => is_whitespace(c),
        Class::Digit => '0' <= c && c <= '9',
        Class::Letter => is_alphabetic(c),
        Class::AlphaNum => is_alphanumeric(c),
    }
}

/// Whether a symbol starts with the character.
fn is_symbolic(c: char) -> (b: bool)
    ensures
        b == symbolic(c),
{
    c == '?' || c == '!' || c == '@' || c == '=' || c == ';' || c == '|' || c == '_' || c == ','
        || c == '+' || c == '-' || c == '*' || c == '/' || c == '<' || c == '>' || c == ':'
}

/// Finds where the longest run of characters of the class that starts at `i` ends.
fn scan(s: &Vec<char>, i: usize, class: Class) -> (e: usize)
    requires
        i <= s.len(),
    ensures
        e == run_end(s@, i as int, class),
        i <= e <= s.len(),
{
    let mut e: usize = i;
    while e < s.len() && is_member(class, s[e])
        invariant
            i <= e <= s.len(),
            run_end(s@, i as int, class) == run_end(s@, e as int, class),
        decreases s.len() - e,
    {
        e += 1;
    }
    e
}

/// The number that the decimal digits `ds` write.
pub open spec fn number(ds: Seq<char>) -> nat
    decreases ds.len(),
{
    if ds.len() == 0 {
        0
    } else {
        number(ds.drop_last()) * 10 + (ds.last() as nat - '0' as nat) as nat
    }
}

/// The first digits of a numeral write no more than all of them.
pub proof fn lemma_number_prefix(ds: Seq<char>, k: int)
    requires
        0 <= k <= ds.len(),
    ensures
        number(ds.take(k)) <= number(ds),
    decreases ds.len() - k,
{
    if k < ds.len() {
        assert(ds.take(k + 1).drop_last() =~= ds.take(k));
        lemma_number_prefix(ds, k + 1);
    } else {
        assert(ds.take(k) =~= ds);
    }
}

/// The symbol that starts with the character `c`, where `d` is the character
/// behind it, if there is one, and the number of its characters. The longest
/// symbol is taken: `=>`, `<=`, `>=` and `<>` go before `=`, `<` and `>`.
pub open spec fn symbol(c: char, d: Option<char>) -> (TokenView, int) {
    if c == '=' && d == Some('>') {
        (TokenView::RightArrow, 2)
    } else if c == '<' && d == Some('=') {
        (TokenView::LEq, 2)
    } else if c == '>' && d == Some('=') {
        (TokenView::GEq, 2)
    } else if c == '<' && d == Some('>') {
        (TokenView::NotEqual, 2)
    } else if c == '?' {
        (TokenView::QMark, 1)
    } else if c == '!' {
        (TokenView::ExMark, 1)
    } else if c == '@' {
        (TokenView::At, 1)
    } else if c == '=' {
        (TokenView::Equals, 1)
    } else if c == ';' {
        (TokenView::Semicolon, 1)
    } else if c == '|' {
        (TokenView::Pipe, 1)
    } else if c == '_' {
        (TokenView::Underscore, 1)
    } else if c == ',' {
        (TokenView::Comma, 1)
    } else if c == '+' {
        (TokenView::Plus, 1)
    } else if c == '-' {
        (TokenView::Dash, 1)
    } else if c == '*' {
        (TokenView::Star, 1)
    } else if c == '/' {
        (TokenView::Slash, 1)
    } else if c == '<' {
        (TokenView::Less, 1)
    } else if c == '>' {
        (TokenView::Greater, 1)
    } else {
        (TokenView::Colon, 1)
    }
}

/// The token that starts at place `i` of the text, and the place where the
/// next token starts, after the white space behind this one.
///
/// A digit starts a number: digits, and then perhaps a point, white space and
/// digits again, which make it a decimal. A letter starts a word, letters
/// and then letters or digits, which is a reserved word or an identifier. A
/// symbol is one character or two. A parenthesis is a token.
pub open spec fn token_at(s: Seq<char>, i: int) -> Result<(TokenView, int), LexError> {
    let c = s[i];
    if digit(c) {
        let e = run_end(s, i, Class::Digit);
        if e < s.len() && s[e] == '.' {
            let f = run_end(s, e + 1, Class::Space);
            let g = run_end(s, f, Class::Digit);
            let ds = s.subrange(i, e) + s.subrange(f, g);
            if g == f {
                Err(LexError::MissingFraction)
            } else if number(ds) > u64::MAX || g - f > u32::MAX {
                Err(LexError::NumberTooLarge)
            } else {
                Ok(
                    (
                        TokenView::Float(
                            Decimal { digits: number(ds) as u64, scale: (g - f) as u32 },
                        ),
                        run_end(s, g, Class::Space),
                    ),
                )
            }
        } else if number(s.subrange(i, e)) > i64::MAX {
            Err(LexError::NumberTooLarge)
        } else {
            Ok((TokenView::Integer(number(s.subrange(i, e)) as i64), run_end(s, e, Class::Space)))
        }
    } else if alphabetic(c) {
        let e = run_end(s, run_end(s, i, Class::Letter), Class::AlphaNum);
        let w = s.subrange(i, e);
        Ok(
            (
                match keyword_spec(w) {
                    Some(k) => TokenView::Keyword(k),
                    None => TokenView::Identifier(w),
                },
                run_end(s, e, Class::Space),
            ),
        )
    } else if symbolic(c) {
        let (t, n) = symbol(
            c,
            if i + 1 < s.len() {
                Some(s[i + 1])
            } else {
                None
            },
        );
        Ok((t, run_end(s, i + n, Class::Space)))
    } else if c == '(' {
        Ok((TokenView::LPar, run_end(s, i + 1, Class::Space)))
    } else if c == ')' {
        Ok((TokenView::RPar, run_end(s, i + 1, Class::Space)))
    } else {
        Err(LexError::UnexpectedCharacter)
    }
}

/// The tokens of the text from place `i` on, where a token starts or the
/// text ends.
pub open spec fn lex_spec(s: Seq<char>, i: int) -> Result<Seq<TokenView>, LexError>
    decreases s.len() - i,
{
    if i < 0 || i >= s.len() {
        Ok(Seq::empty())
    } else {
        match token_at(s, i) {
            Err(e) => Err(e),
            Ok((t, j)) => if j <= i || j > s.len() {
                Err(LexError::UnexpectedCharacter)
            } else {
                match lex_spec(s, j) {
                    Err(e) => Err(e),
                    Ok(ts) => Ok(seq![t] + ts),
                }
            },
        }
    }
}

/// The tokens of a text: white space may stand before the first token,
/// between two tokens and behind the last.
pub open spec fn tokenize_spec(s: Seq<char>) -> Result<Seq<TokenView>, LexError> {
    lex_spec(s, run_end(s, 0, Class::Space))
}

/// The tokens `ts` before the tokens of `r`.
pub open spec fn prepend(ts: Seq<TokenView>, r: Result<Seq<TokenView>, LexError>) -> Result<
    Seq<TokenView>,
    LexError,
> {
    match r {
        Ok(rest) => Ok(ts + rest),
        Err(e) => Err(e),
    }
}

/// Reads the digits from place `from` to place `to` on to the number `start`.
fn accumulate(s: &Vec<char>, from: usize, to: usize, start: u64, Ghost(before): Ghost<Seq<char>>) -> (r:
    Option<u64>)
    requires
        from <= to <= s.len(),
        forall|k: int| from <= k < to ==> digit(#[trigger] s@[k]),
        start == number(before),
    ensures
        r matches Some(v) ==> v == number(before + s@.subrange(from as int, to as int)),
        r is None ==> number(before + s@.subrange(from as int, to as int)) > u64::MAX,
{
    let ghost whole = before + s@.subrange(from as int, to as int);
    let mut acc: u64 = start;
    let mut k: usize = from;
    proof {
        assert(before + s@.subrange(from as int, from as int) =~= before);
    }
    while k < to
        invariant
            from <= k <= to <= s.len(),
            forall|j: int| from <= j < to ==> digit(#[trigger] s@[j]),
            whole == before + s@.subrange(from as int, to as int),
            acc == number(before + s@.subrange(from as int, k as int)),
        decreases to - k,
    {
        let ghost seen = before + s@.subrange(from as int, k as int);
        let ghost more = before + s@.subrange(from as int, k + 1);
        proof {
            assert(more.drop_last() =~= seen);
            assert(more.last() == s@[k as int]);
            assert(digit(s@[k as int]));
            assert(whole.take(before.len() + k + 1 - from) =~= more);
            lemma_number_prefix(whole, before.len() + k + 1 - from);
        }
        let d: u64 = (s[k] as u32 - 48) as u64;
        acc = match acc.checked_mul(10) {
            None => {
                return None;
            },
            Some(tens) => match tens.checked_add(d) {
                None => {
                    return None;
                },
                Some(next) => next,
            },
        };
        k += 1;
    }
    Some(acc)
}

/// What reading a token returned, with the token by its view.
pub open spec fn lexed(r: Result<(Token, usize), LexError>) -> Result<(TokenView, int), LexError> {
    match r {
        Ok((t, j)) => Ok((t@, j as int)),
        Err(e) => Err(e),
    }
}

/// Reads the token that starts at place `i`.
fn token(input: &str, s: &Vec<char>, i: usize) -> (r: Result<(Token, usize), LexError>)
    requires
        i < s.len(),
        s@ == input@,
    ensures
        lexed(r) == token_at(s@, i as int),
        r matches Ok((_, j)) ==> i < j <= s.len(),
{
    let c: char = s[i];
    if is_member(Class::Digit, c) {
        let e = scan(s, i, Class::Digit);
        proof {
            lemma_run_end(s@, i as int, Class::Digit);
            assert(Seq::<char>::empty() + s@.subrange(i as int, e as int) =~= s@.subrange(
                i as int,
                e as int,
            ));
        }
        let whole = match accumulate(s, i, e, 0, Ghost(Seq::empty())) {
            None => {
                proof {
                    let f = run_end(s@, e + 1, Class::Space);
                    let g = run_end(s@, f, Class::Digit);
                    if e < s.len() && s@[e as int] == '.' {
                        lemma_run_end(s@, e + 1, Class::Space);
                        lemma_run_end(s@, f, Class::Digit);
                        let ds = s@.subrange(i as int, e as int) + s@.subrange(f, g);
                        assert(ds.take(e - i) =~= s@.subrange(i as int, e as int));
                        lemma_number_prefix(ds, e - i);
                    }
                }
                if e < s.len() && s[e] == '.' {
                    let f = scan(s, e + 1, Class::Space);
                    let g = scan(s, f, Class::Digit);
                    if g == f {
                        return Err(LexError::MissingFraction);
                    }
                }
                return Err(LexError::NumberTooLarge);
            },
            Some(v) => v,
        };
        if e < s.len() && s[e] == '.' {
            let f = scan(s, e + 1, Class::Space);
            let g = scan(s, f, Class::Digit);
            proof {
                lemma_run_end(s@, e + 1, Class::Space);
                lemma_run_end(s@, f as int, Class::Digit);
                lemma_run_end(s@, g as int, Class::Space);
            }
            if g == f {
                return Err(LexError::MissingFraction);
            }
            let digits = match accumulate(s, f, g, whole, Ghost(s@.subrange(i as int, e as int))) {
                None => {
                    return Err(LexError::NumberTooLarge);
                },
                Some(v) => v,
            };
            if (g - f) as u64 > 0xffff_ffffu64 {
                return Err(LexError::NumberTooLarge);
            }
            let next = scan(s, g, Class::Space);
            Ok((Token::Float(Decimal { digits, scale: (g - f) as u32 }), next))
        } else {
            if whole > 0x7fff_ffff_ffff_ffffu64 {
                return Err(LexError::NumberTooLarge);
            }
            let next = scan(s, e, Class::Space);
            proof {
                lemma_run_end(s@, e as int, Class::Space);
            }
            Ok((Token::Integer(whole as i64), next))
        }
    } else if is_member(Class::Letter, c) {
        let m = scan(s, i, Class::Letter);
        let e = scan(s, m, Class::AlphaNum);
        let next = scan(s, e, Class::Space);
        proof {
            lemma_run_end(s@, i as int, Class::Letter);
            lemma_run_end(s@, m as int, Class::AlphaNum);
            lemma_run_end(s@, e as int, Class::Space);
        }
        let word = input.substring_char(i, e);
        match Keyword::try_from(word) {
            Ok(k) => Ok((Token::Keyword(k), next)),
            Err(_) => Ok((Token::Identifier(String::from_str(word)), next)),
        }
    } else if is_symbolic(c) {
        let d: Option<char> = if i + 1 < s.len() {
            Some(s[i + 1])
        } else {
            None
        };
        let (t, n): (Token, usize) = match d {
            Some('>') if c == '=' => (Token::RightArrow, 2),
            Some('=') if c == '<' => (Token::LEq, 2),
            Some('=') if c == '>' => (Token::GEq, 2),
            Some('>') if c == '<' => (Token::NotEqual, 2),
            _ => if c == '?' {
                (Token::QMark, 1)
            } else if c == '!' {
                (Token::ExMark, 1)
            } else if c == '@' {
                (Token::At, 1)
            } else if c == '=' {
                (Token::Equals, 1)
            } else if c == ';' {
                (Token::Semicolon, 1)
            } else if c == '|' {
                (Token::Pipe, 1)
            } else if c == '_' {
                (Token::Underscore, 1)
            } else if c == ',' {
                (Token::Comma, 1)
            } else if c == '+' {
                (Token::Plus, 1)
            } else if c == '-' {
                (Token::Dash, 1)
            } else if c == '*' {
                (Token::Star, 1)
            } else if c == '/' {
                (Token::Slash, 1)
            } else if c == '<' {
                (Token::Less, 1)
            } else if c == '>' {
                (Token::Greater, 1)
            } else {
                (Token::Colon, 1)
            },
        };
        let next = scan(s, i + n, Class::Space);
        proof {
            lemma_run_end(s@, i + n, Class::Space);
        }
        Ok((t, next))
    } else if c == '(' {
        let next = scan(s, i + 1, Class::Space);
        proof {
            lemma_run_end(s@, i + 1, Class::Space);
        }
        Ok((Token::LPar, next))
    } else if c == ')' {
        let next = scan(s, i + 1, Class::Space);
        proof {
            lemma_run_end(s@, i + 1, Class::Space);
        }
        Ok((Token::RPar, next))
    } else {
        Err(LexError::UnexpectedCharacter)
    }
}

/// What a tokenizer returned, with the tokens by their view.
pub open spec fn tokenized(r: Result<Vec<Token>, LexError>) -> Result<Seq<TokenView>, LexError> {
    match r {
        Ok(ts) => Ok(tokens_view(ts@)),
        Err(e) => Err(e),
    }
}

/// Splits a text into its tokens.
pub fn tokenize(input: &str) -> (r: Result<Vec<Token>, LexError>)
    ensures
        tokenized(r) == tokenize_spec(input@),
{
    let s = characters(input);
    let mut out: Vec<Token> = Vec::new();
    let mut i: usize = scan(&s, 0, Class::Space);
    proof {
        assert(tokens_view(out@) + Seq::<TokenView>::empty() =~= tokens_view(out@));
        assert(tokens_view(out@) =~= Seq::<TokenView>::empty());
        match lex_spec(s@, i as int) {
            Ok(rest) => {
                assert(Seq::<TokenView>::empty() + rest =~= rest);
            },
            Err(_) => {},
        }
    }
    while i < s.len()
        invariant
            i <= s.len(),
            s@ == input@,
            tokenize_spec(input@) == prepend(tokens_view(out@), lex_spec(s@, i as int)),
        decreases s.len() - i,
    {
        let ghost seen = tokens_view(out@);
        match token(input, &s, i) {
            Err(e) => {
                return Err(e);
            },
            Ok((t, j)) => {
                let ghost tv = t@;
                out.push(t);
                proof {
                    assert(tokens_view(out@) =~= seen.push(tv));
                    match lex_spec(s@, j as int) {
                        Ok(rest) => {
                            assert(seen + (seq![tv] + rest) =~= seen.push(tv) + rest);
                        },
                        Err(_) => {},
                    }
                }
                i = j;
            },
        }
    }
    proof {
        assert(tokens_view(out@) + Seq::<TokenView>::empty() =~= tokens_view(out@));
    }
    Ok(out)
}

} // verus!
