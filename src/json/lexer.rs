//! The tokenizer: turns JSON text into a sequence of typed tokens.
use vstd::prelude::*;

pub use super::constants;

verus! {

/// The punctuation marks that frame a JSON text.
pub open spec fn is_structural(c: char) -> bool {
    c == '"' || c == '[' || c == ']' || c == '{' || c == '}' || c == ':' || c == '\n' || c == ','
}

/// A character known to be one of the structural punctuation marks.
#[derive(Debug, PartialEq, Eq, Clone, Copy, Structural)]
pub struct Character(pub char);

impl Character {
    /// The structural character `ch`, or `NotAJsonChar` for any other character.
    pub fn new(ch: char) -> (r: Result<Character, LexerError>)
        ensures
            is_structural(ch) ==> r == Ok::<Character, LexerError>(Character(ch)),
            !is_structural(ch) ==> r == Err::<Character, LexerError>(LexerError::NotAJsonChar),
    {
        if ch == constants::QUOTE || ch == constants::LEFT_BRACKET || ch == constants::RIGHT_BRACKET
            || ch == constants::LEFT_BRACE || ch == constants::RIGHT_BRACE || ch
            == constants::COLUMN || ch == constants::NEW_LINE || ch == constants::COMMA {
            Ok(Character(ch))
        } else {
            Err(LexerError::NotAJsonChar)
        }
    }
}

/// Why a run of digits and dots is not a decimal number.
#[derive(Debug, PartialEq, Eq, Clone, Copy, Structural)]
pub enum FloatErrorKind {
    /// No characters at all.
    Empty,
    /// More than one dot, or no digit.
    Invalid,
}

/// Why text could not be tokenized.
#[derive(Debug, PartialEq, Eq, Clone, Copy, Structural)]
pub enum LexerError {
    EmptyInput,
    NotAString,
    NotANumber,
    NotAFloat(FloatErrorKind),
    NotABool,
    NotAJsonChar,
    NotANull,
    InvalidJson,
}


/// A number as written in the text: its sign and the run of digits and
/// dots that follows it. Turning it into a machine float is left to callers.
#[derive(Debug, PartialEq, Clone)]
pub struct Decimal {
    pub negative: bool,
    pub digits: String,
}

impl View for Decimal {
    type V = (bool, Seq<char>);

    open spec fn view(&self) -> (bool, Seq<char>) {
        (self.negative, self.digits@)
    }
}

/// What a token stands for, in mathematical terms.
pub enum Lexeme {
    Text(Seq<char>),
    Num(bool, Seq<char>),
    Bool(bool),
    Punct(char),
    Null,
    Other(char),
}

#[derive(Debug, PartialEq, Clone)]
pub enum Token {
    JsonString(String),
    Number(Decimal),
    Boolean(bool),
    JsonCharacter(Character),
    Null,
    /// A character outside the structural set; never part of a tokenized text.
    Other(char),
}

impl View for Token {
    type V = Lexeme;

    open spec fn view(&self) -> Lexeme {
        match self {
            Token::JsonString(s) => Lexeme::Text(s@),
            Token::Number(d) => Lexeme::Num(d.negative, d.digits@),
            Token::Boolean(b) => Lexeme::Bool(*b),
            Token::JsonCharacter(c) => Lexeme::Punct(c.0),
            Token::Null => Lexeme::Null,
            Token::Other(c) => Lexeme::Other(*c),
        }
    }
}

/// The token that a single character stands for.
pub open spec fn char_token(c: char) -> Token {
    if is_structural(c) {
        Token::JsonCharacter(Character(c))
    } else {
        Token::Other(c)
    }
}

impl From<char> for Token {
    fn from(ch: char) -> (r: Token)
        ensures
            r == char_token(ch),
    {
        match Character::new(ch) {
            Ok(character) => Token::JsonCharacter(character),
            Err(_) => Token::Other(ch),
        }
    }
}

impl vstd::std_specs::convert::FromSpecImpl<char> for Token {
    open spec fn obeys_from_spec() -> bool {
        true
    }

    open spec fn from_spec(ch: char) -> Token {
        char_token(ch)
    }
}

pub open spec fn lexemes(ts: Seq<Token>) -> Seq<Lexeme> {
    ts.map_values(|t: Token| t@)
}

/// An ordered sequence of tokens, in the order of the text they came from.
#[derive(Debug)]
pub struct TokenStream {
    pub tokens: Vec<Token>,
}

impl View for TokenStream {
    type V = Seq<Lexeme>;

    open spec fn view(&self) -> Seq<Lexeme> {
        lexemes(self.tokens@)
    }
}

impl Default for TokenStream {
    fn default() -> (r: TokenStream)
        ensures
            r.tokens@.len() == 0,
    {
        TokenStream { tokens: Vec::new() }
    }
}

impl std::ops::Deref for TokenStream {
    type Target = Vec<Token>;

    fn deref(&self) -> (r: &Vec<Token>)
        ensures
            r == &self.tokens,
    {
        &self.tokens
    }
}

impl std::ops::DerefMut for TokenStream {
    fn deref_mut(&mut self) -> &mut Vec<Token> {
        &mut self.tokens
    }
}

/// Relies on String::push: appends one character at the end of the string.
#[verifier::external_body]
fn push_char(s: &mut String, c: char)
    ensures
        final(s)@ == old(s)@.push(c),
{
    s.push(c)
}

/// The characters of a text, one per element.
fn chars_of(s: &str) -> (r: Vec<char>)
    ensures
        r@ == s@,
{
    let mut v: Vec<char> = Vec::new();
    for c in it: s.chars()
        invariant
            v@ == it.seq().take(it.index() as int),
    {
        v.push(c);
    }
    v
}


// ---------------------------------------------------------------------
// Recognizers, stated over the remaining text `s`. Each one reports the
// index of the last character it consumed.
// ---------------------------------------------------------------------

/// Index of the first quote at or after `i`, or the length of `s` if there is none.
pub open spec fn next_quote(s: Seq<char>, i: int) -> int
    decreases s.len() - i,
{
    if i < 0 || i >= s.len() {
        s.len() as int
    } else if s[i] == '"' {
        i
    } else {
        next_quote(s, i + 1)
    }
}

/// A quoted string: its characters up to the next quote, taken verbatim.
/// When no closing quote follows, everything after the opening quote is the
/// text and the last consumed index is reported as 0.
pub open spec fn string_scan(s: Seq<char>) -> Result<(Seq<char>, int), LexerError> {
    if s.len() == 0 {
        Err(LexerError::EmptyInput)
    } else if s[0] != '"' {
        Err(LexerError::NotAString)
    } else {
        let q = next_quote(s, 1);
        Ok((s.subrange(1, q), if q < s.len() { q } else { 0 }))
    }
}

pub open spec fn is_digit(c: char) -> bool {
    '0' <= c && c <= '9'
}

pub open spec fn is_number_char(c: char) -> bool {
    is_digit(c) || c == '.'
}

/// Index of the first character at or after `i` that is neither a digit nor a dot.
pub open spec fn number_end(s: Seq<char>, i: int) -> int
    decreases s.len() - i,
{
    if i < 0 || i >= s.len() {
        s.len() as int
    } else if !is_number_char(s[i]) {
        i
    } else {
        number_end(s, i + 1)
    }
}

pub open spec fn dot_count(d: Seq<char>) -> nat
    decreases d.len(),
{
    if d.len() == 0 {
        0
    } else {
        dot_count(d.drop_last()) + if d.last() == '.' { 1nat } else { 0nat }
    }
}

pub open spec fn has_digit(d: Seq<char>) -> bool {
    exists|i: int| 0 <= i < d.len() && is_digit(#[trigger] d[i])
}

/// Whether a run of digits and dots reads as a decimal number: it needs at
/// least one digit and at most one dot.
pub open spec fn decimal_error(d: Seq<char>) -> Option<FloatErrorKind> {
    if d.len() == 0 {
        Some(FloatErrorKind::Empty)
    } else if dot_count(d) > 1 || !has_digit(d) {
        Some(FloatErrorKind::Invalid)
    } else {
        None
    }
}

/// A number: an optional minus sign, then digits and dots up to a newline,
/// a comma or the end of the text. Any other character there is an error.
pub open spec fn number_scan(s: Seq<char>) -> Result<((bool, Seq<char>), int), LexerError> {
    if s.len() == 0 {
        Err(LexerError::EmptyInput)
    } else {
        let negative = s[0] == '-';
        let start: int = if negative { 1 } else { 0 };
        let e = number_end(s, start);
        if e < s.len() && s[e] != '\n' && s[e] != ',' {
            Err(LexerError::NotANumber)
        } else {
            match decimal_error(s.subrange(start, e)) {
                Some(k) => Err(LexerError::NotAFloat(k)),
                None => Ok(((negative, s.subrange(start, e)), e - 1)),
            }
        }
    }
}

pub open spec fn starts_true(s: Seq<char>) -> bool {
    s.len() >= 4 && s[0] == 't' && s[1] == 'r' && s[2] == 'u' && s[3] == 'e'
}

pub open spec fn starts_false(s: Seq<char>) -> bool {
    s.len() >= 5 && s[0] == 'f' && s[1] == 'a' && s[2] == 'l' && s[3] == 's' && s[4] == 'e'
}

/// A boolean: the text starts with `true` or `false`.
pub open spec fn bool_scan(s: Seq<char>) -> Result<(bool, int), LexerError> {
    if s.len() == 0 {
        Err(LexerError::EmptyInput)
    } else if starts_true(s) {
        Ok((true, 3))
    } else if starts_false(s) {
        Ok((false, 4))
    } else {
        Err(LexerError::NotABool)
    }
}

/// A null: the text starts with `null` followed by a newline or a comma.
pub open spec fn null_scan(s: Seq<char>) -> Result<int, LexerError> {
    if s.len() == 0 {
        Err(LexerError::EmptyInput)
    } else if s.len() >= 5 && s[0] == 'n' && s[1] == 'u' && s[2] == 'l' && s[3] == 'l' && (s[4]
        == '\n' || s[4] == ',') {
        Ok(3)
    } else {
        Err(LexerError::NotANull)
    }
}

fn scan_string(chars: &Vec<char>, at: usize) -> (r: Result<(String, usize), LexerError>)
    requires
        at <= chars@.len(),
    ensures
        match (r, string_scan(chars@.skip(at as int))) {
            (Ok((text, last)), Ok((t, l))) => text@ == t && last == l && at + last < chars@.len(),
            (Err(e), Err(f)) => e == f,
            _ => false,
        },
        r matches Ok((_, last)) ==> at + last < chars@.len(),
{
    let ghost s = chars@.skip(at as int);
    if at >= chars.len() {
        return Err(LexerError::EmptyInput);
    }
    if chars[at] != constants::QUOTE {
        return Err(LexerError::NotAString);
    }
    let mut text = String::new();
    let mut j: usize = at + 1;
    while j < chars.len() && chars[j] != constants::QUOTE
        invariant
            at + 1 <= j <= chars@.len(),
            s == chars@.skip(at as int),
            text@ == chars@.subrange(at + 1, j as int),
            next_quote(s, 1) == next_quote(s, j - at),
        decreases chars@.len() - j,
    {
        push_char(&mut text, chars[j]);
        assert(chars@.subrange(at + 1, j + 1) == chars@.subrange(at + 1, j as int).push(chars@[j as int]));
        j += 1;
    }
    proof {
        assert(s.subrange(1, j - at) == chars@.subrange(at + 1, j as int));
    }
    let last: usize = if j < chars.len() { j - at } else { 0 };
    Ok((text, last))
}

fn scan_number(chars: &Vec<char>, at: usize) -> (r: Result<(Decimal, usize), LexerError>)
    requires
        at <= chars@.len(),
    ensures
        match (r, number_scan(chars@.skip(at as int))) {
            (Ok((d, last)), Ok((v, l))) => d@ == v && last == l && at + last < chars@.len(),
            (Err(e), Err(f)) => e == f,
            _ => false,
        },
        r matches Ok((_, last)) ==> at + last < chars@.len(),
{
    let ghost s = chars@.skip(at as int);
    if at >= chars.len() {
        return Err(LexerError::EmptyInput);
    }
    let negative = chars[at] == '-';
    let start: usize = if negative { at + 1 } else { at };
    let mut digits = String::new();
    let mut dots: usize = 0;
    let mut seen_digit = false;
    let mut j: usize = start;
    while j < chars.len() && (chars[j] == '.' || ('0' <= chars[j] && chars[j] <= '9'))
        invariant
            start <= j <= chars@.len(),
            start == at + if negative { 1int } else { 0int },
            s == chars@.skip(at as int),
            digits@ == chars@.subrange(start as int, j as int),
            dots == dot_count(digits@),
            dots <= j - start,
            seen_digit == has_digit(digits@),
            number_end(s, start - at) == number_end(s, j - at),
        decreases chars@.len() - j,
    {
        let c = chars[j];
        let ghost before = digits@;
        push_char(&mut digits, c);
        assert(digits@.drop_last() == before);
        if c == '.' {
            dots = dots + 1;
        } else {
            seen_digit = true;
        }
        proof {
            if has_digit(digits@) {
                let i = choose|i: int| 0 <= i < digits@.len() && is_digit(#[trigger] digits@[i]);
                if i < before.len() {
                    assert(before[i] == digits@[i]);
                }
            }
            if has_digit(before) {
                let i = choose|i: int| 0 <= i < before.len() && is_digit(#[trigger] before[i]);
                assert(digits@[i] == before[i]);
            }
            if is_digit(c) {
                assert(digits@[before.len() as int] == c);
            }
        }
        assert(chars@.subrange(start as int, j + 1) == chars@.subrange(start as int, j as int).push(c));
        j += 1;
    }
    proof {
        assert(s.subrange(start - at, j - at) == digits@);
    }
    if j < chars.len() && chars[j] != constants::NEW_LINE && chars[j] != constants::COMMA {
        return Err(LexerError::NotANumber);
    }
    if j == start {
        return Err(LexerError::NotAFloat(FloatErrorKind::Empty));
    }
    if dots > 1 || !seen_digit {
        return Err(LexerError::NotAFloat(FloatErrorKind::Invalid));
    }
    Ok((Decimal { negative, digits }, j - 1 - at))
}

fn scan_bool(chars: &Vec<char>, at: usize) -> (r: Result<(bool, usize), LexerError>)
    requires
        at <= chars@.len(),
    ensures
        match (r, bool_scan(chars@.skip(at as int))) {
            (Ok((b, last)), Ok((v, l))) => b == v && last == l && at + last < chars@.len(),
            (Err(e), Err(f)) => e == f,
            _ => false,
        },
        r matches Ok((_, last)) ==> at + last < chars@.len(),
{
    let n = chars.len();
    if at >= n {
        Err(LexerError::EmptyInput)
    } else if n - at >= 4 && chars[at] == 't' && chars[at + 1] == 'r' && chars[at + 2] == 'u'
        && chars[at + 3] == 'e' {
        Ok((true, 3))
    } else if n - at >= 5 && chars[at] == 'f' && chars[at + 1] == 'a' && chars[at + 2] == 'l'
        && chars[at + 3] == 's' && chars[at + 4] == 'e' {
        Ok((false, 4))
    } else {
        Err(LexerError::NotABool)
    }
}

fn scan_null(chars: &Vec<char>, at: usize) -> (r: Result<usize, LexerError>)
    requires
        at <= chars@.len(),
    ensures
        match (r, null_scan(chars@.skip(at as int))) {
            (Ok(last), Ok(l)) => last == l && at + last < chars@.len(),
            (Err(e), Err(f)) => e == f,
            _ => false,
        },
        r matches Ok(last) ==> at + last < chars@.len(),
{
    let n = chars.len();
    if at >= n {
        Err(LexerError::EmptyInput)
    } else if n - at >= 5 && chars[at] == 'n' && chars[at + 1] == 'u' && chars[at + 2] == 'l'
        && chars[at + 3] == 'l' && (chars[at + 4] == '\n' || chars[at + 4] == ',') {
        Ok(3)
    } else {
        Err(LexerError::NotANull)
    }
}


pub type LexStringOutput = (String, usize);

pub type LexNumberOutput = (Decimal, usize);

pub type LexBoolOutput = (bool, usize);

pub type LexNullOutput = (Token, usize);

/// The text after index `index`; empty when `index` is the last index.
pub fn crop_content(json_content: &str, index: usize) -> (r: &str)
    requires
        index < json_content@.len(),
    ensures
        r@ == json_content@.skip(index + 1),
{
    let n = json_content.unicode_len();
    if index == n - 1 {
        proof {
            reveal_strlit("");
        }
        assert(json_content@.skip(index + 1) =~= Seq::<char>::empty());
        ""
    } else {
        json_content.substring_char(index + 1, n)
    }
}

/// Recognizes `null` followed by a newline or a comma; see `null_scan`.
pub fn lex_null(json_content: &str) -> (r: Result<LexNullOutput, LexerError>)
    ensures
        match (r, null_scan(json_content@)) {
            (Ok((t, last)), Ok(l)) => t == Token::Null && last == l,
            (Err(e), Err(f)) => e == f,
            _ => false,
        },
{
    let chars = chars_of(json_content);
    assert(chars@.skip(0) == chars@);
    match scan_null(&chars, 0) {
        Ok(last) => Ok((Token::Null, last)),
        Err(e) => Err(e),
    }
}

/// Recognizes `true` or `false` at the start of the text; see `bool_scan`.
pub fn lex_bool(json_content: &str) -> (r: Result<LexBoolOutput, LexerError>)
    ensures
        match (r, bool_scan(json_content@)) {
            (Ok((b, last)), Ok((v, l))) => b == v && last == l,
            (Err(e), Err(f)) => e == f,
            _ => false,
        },
{
    let chars = chars_of(json_content);
    assert(chars@.skip(0) == chars@);
    scan_bool(&chars, 0)
}

/// Recognizes a number at the start of the text; see `number_scan`.
pub fn lex_number(json_content: &str) -> (r: Result<LexNumberOutput, LexerError>)
    ensures
        match (r, number_scan(json_content@)) {
            (Ok((d, last)), Ok((v, l))) => d@ == v && last == l,
            (Err(e), Err(f)) => e == f,
            _ => false,
        },
{
    let chars = chars_of(json_content);
    assert(chars@.skip(0) == chars@);
    scan_number(&chars, 0)
}

/// Recognizes a quoted string at the start of the text; see `string_scan`.
pub fn lex_string(json_content: &str) -> (r: Result<LexStringOutput, LexerError>)
    ensures
        match (r, string_scan(json_content@)) {
            (Ok((text, last)), Ok((t, l))) => text@ == t && last == l,
            (Err(e), Err(f)) => e == f,
            _ => false,
        },
{
    let chars = chars_of(json_content);
    assert(chars@.skip(0) == chars@);
    scan_string(&chars, 0)
}

/// The token that the first character of the text stands for.
pub fn lex_character(json_content: &str) -> (r: Result<Token, LexerError>)
    ensures
        json_content@.len() == 0 ==> r == Err::<Token, LexerError>(LexerError::EmptyInput),
        json_content@.len() > 0 ==> r == Ok::<Token, LexerError>(char_token(json_content@[0])),
{
    if json_content.is_empty() {
        return Err(LexerError::EmptyInput);
    }
    Ok(Token::from(json_content.get_char(0)))
}

// ---------------------------------------------------------------------
// The tokenizer.
// ---------------------------------------------------------------------

/// Unicode white space (the `White_Space` property).
pub open spec fn is_white(c: char) -> bool {
    let u = c as u32;
    (0x9 <= u && u <= 0xd) || u == 0x20 || u == 0x85 || u == 0xa0 || u == 0x1680 || (0x2000 <= u
        && u <= 0x200a) || u == 0x2028 || u == 0x2029 || u == 0x202f || u == 0x205f || u == 0x3000
}

pub open spec fn trim_start(s: Seq<char>) -> Seq<char>
    decreases s.len(),
{
    if s.len() > 0 && is_white(s[0]) {
        trim_start(s.drop_first())
    } else {
        s
    }
}

pub open spec fn trim_end(s: Seq<char>) -> Seq<char>
    decreases s.len(),
{
    if s.len() > 0 && is_white(s.last()) {
        trim_end(s.drop_last())
    } else {
        s
    }
}

/// The text without leading and trailing white space.
pub open spec fn trimmed(s: Seq<char>) -> Seq<char> {
    trim_end(trim_start(s))
}

/// Relies on str::trim: the same text with leading and trailing white space
/// removed, white space being the Unicode `White_Space` property.
#[verifier::external_body]
fn trim_text(s: &str) -> (r: &str)
    ensures
        r@ == trimmed(s@),
{
    s.trim()
}

pub open spec fn after_string(s: Seq<char>) -> (Seq<Lexeme>, Seq<char>) {
    match string_scan(s) {
        Ok((t, l)) => (seq![Lexeme::Text(t)], s.skip(l + 1)),
        Err(_) => (seq![], s),
    }
}

pub open spec fn after_number(s: Seq<char>) -> (Seq<Lexeme>, Seq<char>) {
    match number_scan(s) {
        Ok((v, l)) => (seq![Lexeme::Num(v.0, v.1)], s.skip(l + 1)),
        Err(_) => (seq![], s),
    }
}

pub open spec fn after_bool(s: Seq<char>) -> (Seq<Lexeme>, Seq<char>) {
    match bool_scan(s) {
        Ok((b, l)) => (seq![Lexeme::Bool(b)], s.skip(l + 1)),
        Err(_) => (seq![], s),
    }
}

pub open spec fn after_null(s: Seq<char>) -> (Seq<Lexeme>, Seq<char>) {
    match null_scan(s) {
        Ok(l) => (seq![Lexeme::Null], s.skip(l + 1)),
        Err(_) => (seq![], s),
    }
}

/// One pass of the tokenizer over the remaining text: the string, number,
/// boolean and null recognizers are tried in turn, each from where the
/// previous one left off, and then one structural character is taken or one
/// space skipped. Gives the tokens of the pass and the text left after it.
pub open spec fn pass(s: Seq<char>) -> Result<(Seq<Lexeme>, Seq<char>), LexerError> {
    let a = after_string(s);
    let b = after_number(a.1);
    let c = after_bool(b.1);
    let d = after_null(c.1);
    let found = a.0 + b.0 + c.0 + d.0;
    let rest = d.1;
    if rest.len() == 0 {
        Err(LexerError::InvalidJson)
    } else if is_structural(rest[0]) {
        Ok((found.push(Lexeme::Punct(rest[0])), rest.skip(1)))
    } else if rest[0] == ' ' {
        Ok((found, rest.skip(1)))
    } else {
        Err(LexerError::InvalidJson)
    }
}

pub open spec fn prepend(t: Seq<Lexeme>, r: Result<Seq<Lexeme>, LexerError>) -> Result<
    Seq<Lexeme>,
    LexerError,
> {
    match r {
        Ok(u) => Ok(t + u),
        Err(e) => Err(e),
    }
}

/// The tokens of a text, pass after pass until nothing is left.
pub open spec fn tokens_from(s: Seq<char>) -> Result<Seq<Lexeme>, LexerError>
    decreases s.len(),
{
    if s.len() == 0 {
        Ok(seq![])
    } else {
        match pass(s) {
            // A successful pass always consumes at least one character.
            Ok((t, rest)) => if rest.len() < s.len() {
                prepend(t, tokens_from(rest))
            } else {
                Err(LexerError::InvalidJson)
            },
            Err(e) => Err(e),
        }
    }
}

/// The tokens of a whole text, which is first trimmed of white space.
pub open spec fn tokenize(text: Seq<char>) -> Result<Seq<Lexeme>, LexerError> {
    let t = trimmed(text);
    if t.len() == 0 {
        Err(LexerError::EmptyInput)
    } else {
        tokens_from(t)
    }
}

proof fn lemma_lexemes_push(v: Seq<Token>, x: Token)
    ensures
        lexemes(v.push(x)) == lexemes(v).push(x@),
{
    assert(lexemes(v.push(x)) =~= lexemes(v).push(x@));
}

proof fn lemma_prepend_assoc(a: Seq<Lexeme>, b: Seq<Lexeme>, r: Result<Seq<Lexeme>, LexerError>)
    ensures
        prepend(a, prepend(b, r)) == prepend(a + b, r),
{
    if let Ok(u) = r {
        assert(a + (b + u) =~= (a + b) + u);
    }
}

fn step_string(chars: &Vec<char>, pos: usize, tokens: &mut TokenStream) -> (p: usize)
    requires
        pos <= chars@.len(),
    ensures
        pos <= p <= chars@.len(),
        final(tokens)@ == old(tokens)@ + after_string(chars@.skip(pos as int)).0,
        chars@.skip(p as int) == after_string(chars@.skip(pos as int)).1,
{
    let n = chars.len();
    let scanned = scan_string(chars, pos);
    match scanned {
        Ok((text, last)) => {
            proof { lemma_lexemes_push(tokens.tokens@, Token::JsonString(text)); }
            tokens.tokens.push(Token::JsonString(text));
            assert(chars@.skip(pos as int).skip(last + 1) =~= chars@.skip(pos + last + 1));
            pos + last + 1
        },
        Err(_) => {
            assert(tokens@ + seq![] =~= tokens@);
            pos
        },
    }
}

fn step_number(chars: &Vec<char>, pos: usize, tokens: &mut TokenStream) -> (p: usize)
    requires
        pos <= chars@.len(),
    ensures
        pos <= p <= chars@.len(),
        final(tokens)@ == old(tokens)@ + after_number(chars@.skip(pos as int)).0,
        chars@.skip(p as int) == after_number(chars@.skip(pos as int)).1,
{
    let n = chars.len();
    let scanned = scan_number(chars, pos);
    match scanned {
        Ok((number, last)) => {
            proof { lemma_lexemes_push(tokens.tokens@, Token::Number(number)); }
            tokens.tokens.push(Token::Number(number));
            assert(chars@.skip(pos as int).skip(last + 1) =~= chars@.skip(pos + last + 1));
            pos + last + 1
        },
        Err(_) => {
            assert(tokens@ + seq![] =~= tokens@);
            pos
        },
    }
}

fn step_bool(chars: &Vec<char>, pos: usize, tokens: &mut TokenStream) -> (p: usize)
    requires
        pos <= chars@.len(),
    ensures
        pos <= p <= chars@.len(),
        final(tokens)@ == old(tokens)@ + after_bool(chars@.skip(pos as int)).0,
        chars@.skip(p as int) == after_bool(chars@.skip(pos as int)).1,
{
    let n = chars.len();
    let scanned = scan_bool(chars, pos);
    match scanned {
        Ok((value, last)) => {
            proof { lemma_lexemes_push(tokens.tokens@, Token::Boolean(value)); }
            tokens.tokens.push(Token::Boolean(value));
            assert(chars@.skip(pos as int).skip(last + 1) =~= chars@.skip(pos + last + 1));
            pos + last + 1
        },
        Err(_) => {
            assert(tokens@ + seq![] =~= tokens@);
            pos
        },
    }
}

fn step_null(chars: &Vec<char>, pos: usize, tokens: &mut TokenStream) -> (p: usize)
    requires
        pos <= chars@.len(),
    ensures
        pos <= p <= chars@.len(),
        final(tokens)@ == old(tokens)@ + after_null(chars@.skip(pos as int)).0,
        chars@.skip(p as int) == after_null(chars@.skip(pos as int)).1,
{
    let n = chars.len();
    let scanned = scan_null(chars, pos);
    match scanned {
        Ok(last) => {
            proof { lemma_lexemes_push(tokens.tokens@, Token::Null); }
            tokens.tokens.push(Token::Null);
            assert(chars@.skip(pos as int).skip(last + 1) =~= chars@.skip(pos + last + 1));
            pos + last + 1
        },
        Err(_) => {
            assert(tokens@ + seq![] =~= tokens@);
            pos
        },
    }
}

/// One pass of the tokenizer from `pos`, appending its tokens.
fn lex_pass(chars: &Vec<char>, pos: usize, tokens: &mut TokenStream) -> (r: Result<usize, LexerError>)
    requires
        pos < chars@.len(),
    ensures
        match (r, pass(chars@.skip(pos as int))) {
            (Ok(p), Ok((found, rest))) => pos < p <= chars@.len() && final(tokens)@ == old(tokens)@
                + found && rest == chars@.skip(p as int),
            (Err(e), Err(f)) => e == f,
            _ => false,
        },
{
    let ghost s0 = chars@.skip(pos as int);
    let ghost before = tokens@;
    let past_string = step_string(chars, pos, tokens);
    let past_number = step_number(chars, past_string, tokens);
    let past_bool = step_bool(chars, past_number, tokens);
    let past_null = step_null(chars, past_bool, tokens);
    let ghost a = after_string(s0);
    let ghost b = after_number(a.1);
    let ghost c = after_bool(b.1);
    let ghost d = after_null(c.1);
    let ghost found = a.0 + b.0 + c.0 + d.0;
    assert(tokens@ =~= before + found);
    if past_null >= chars.len() {
        assert(d.1.len() == 0);
        return Err(LexerError::InvalidJson);
    }
    assert(d.1[0] == chars@[past_null as int]);
    assert(d.1.skip(1) =~= chars@.skip(past_null + 1));
    match Token::from(chars[past_null]) {
        Token::JsonCharacter(character) => {
            proof { lemma_lexemes_push(tokens.tokens@, Token::JsonCharacter(character)); }
            tokens.tokens.push(Token::JsonCharacter(character));
            assert(tokens@ =~= before + found.push(Lexeme::Punct(d.1[0])));
        },
        Token::Other(ch) => {
            if ch != ' ' {
                return Err(LexerError::InvalidJson);
            }
        },
        _ => {
            return Err(LexerError::InvalidJson);
        },
    }
    Ok(past_null + 1)
}

/// Tokenizes a whole text; see `tokenize`.
pub fn lex(json_content: &str) -> (r: Result<TokenStream, LexerError>)
    ensures
        match (r, tokenize(json_content@)) {
            (Ok(ts), Ok(v)) => ts@ == v,
            (Err(e), Err(f)) => e == f,
            _ => false,
        },
{
    let text = trim_text(json_content);
    let chars = chars_of(text);
    let n = chars.len();
    if n == 0 {
        return Err(LexerError::EmptyInput);
    }
    let ghost t = chars@;
    let mut tokens = TokenStream::default();
    let mut pos: usize = 0;
    assert(t.skip(0) == t);
    proof {
        assert(tokens@ =~= Seq::<Lexeme>::empty());
        if let Ok(u) = tokens_from(t) {
            assert(tokens@ + u =~= u);
        }
    }
    while pos < n
        invariant
            n == chars@.len(),
            t == chars@,
            pos <= n,
            tokens_from(t) == prepend(tokens@, tokens_from(t.skip(pos as int))),
            tokenize(json_content@) == tokens_from(t),
        decreases n - pos,
    {
        let ghost before = tokens@;
        let ghost s0 = t.skip(pos as int);
        match lex_pass(&chars, pos, &mut tokens) {
            Ok(p) => {
                proof {
                    let found = pass(s0)->Ok_0.0;
                    lemma_prepend_assoc(before, found, tokens_from(t.skip(p as int)));
                }
                pos = p;
            },
            Err(e) => {
                assert(s0.len() > 0);
                assert(tokens_from(s0) == Err::<Seq<Lexeme>, LexerError>(e));
                return Err(e);
            },
        }
    }
    proof {
        assert(t.skip(n as int).len() == 0);
        if let Ok(u) = tokens_from(t) {
            assert(tokens@ + seq![] =~= tokens@);
        }
    }
    Ok(tokens)
}

/// A space where a token could start is skipped: the tokens of the text
/// after it are the tokens of the whole.
pub proof fn lemma_space_skipped(rest: Seq<char>)
    ensures
        tokens_from(seq![' '] + rest) == tokens_from(rest),
{
    let s = seq![' '] + rest;
    let e = Seq::<Lexeme>::empty();
    assert(s[0] == ' ');
    assert(number_end(s, 0) == 0);
    assert(s.subrange(0, 0) =~= Seq::<char>::empty());
    assert(after_string(s) == (e, s));
    assert(after_number(s) == (e, s));
    assert(after_bool(s) == (e, s));
    assert(after_null(s) == (e, s));
    assert(e + e + e + e =~= e);
    assert(s.skip(1) =~= rest);
    assert(pass(s) == Ok::<(Seq<Lexeme>, Seq<char>), LexerError>((e, rest)));
    if let Ok(u) = tokens_from(rest) {
        assert(e + u =~= u);
    }
}

} // verus!
