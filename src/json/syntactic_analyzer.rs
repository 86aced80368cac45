//! The parser: checks the brackets of a token stream and reads it as an
//! object of scalar members.
use vstd::prelude::*;

use super::constants;
use super::lexer::{Character, Decimal, Lexeme, Token, TokenStream, lexemes};

verus! {

/// One member of an object: a key and its value.
#[derive(Debug, PartialEq)]
pub struct JsonPair(pub String, pub JsonValue);

/// A parsed JSON value.
#[derive(Debug, PartialEq)]
pub enum JsonValue {
    String(String),
    Number(Decimal),
    JsonObject(Vec<JsonPair>),
    JsonArray(Vec<JsonValue>),
    Boolean(bool),
    Null,
}

/// Why a token stream could not be parsed.
#[derive(Debug, PartialEq, Eq, Clone, Copy, Structural)]
pub enum ParseError {
    InvalidParantheses,
    NotValidJsonObjectOrArray,
    /// The members of an object ended at a closing brace; not an error to users.
    EmptyObject,
    InvalidPair,
    InvalidValue,
    EmptyJson,
}

/// What a member's value is, in mathematical terms. Objects and arrays are
/// never the value of a member here, and are all seen as `Compound`.
pub enum Scalar {
    Text(Seq<char>),
    Num(bool, Seq<char>),
    Bool(bool),
    Null,
    Compound,
}

pub open spec fn scalar_of(v: JsonValue) -> Scalar {
    match v {
        JsonValue::String(s) => Scalar::Text(s@),
        JsonValue::Number(d) => Scalar::Num(d.negative, d.digits@),
        JsonValue::Boolean(b) => Scalar::Bool(b),
        JsonValue::Null => Scalar::Null,
        _ => Scalar::Compound,
    }
}

/// The members of an object, as keys and values.
pub open spec fn pairs_view(ps: Seq<JsonPair>) -> Seq<(Seq<char>, Scalar)> {
    ps.map_values(|p: JsonPair| (p.0@, scalar_of(p.1)))
}

// ---------------------------------------------------------------------
// Bracket validation.
// ---------------------------------------------------------------------

/// The opening mark that a closing mark must meet.
pub open spec fn opener_of(c: char) -> char {
    if c == '}' {
        '{'
    } else {
        '['
    }
}

/// Whether the tokens `ts` close only what is open and leave nothing open,
/// given the marks still open before them (innermost last). Only an opening
/// brace is ever opened.
pub open spec fn brackets_from(ts: Seq<Lexeme>, open: Seq<char>) -> bool
    decreases ts.len(),
{
    if ts.len() == 0 {
        open.len() == 0
    } else {
        let rest = ts.drop_first();
        match ts[0] {
            Lexeme::Punct(c) => if c == '{' {
                brackets_from(rest, open.push('{'))
            } else if c == '}' || c == ']' {
                open.len() > 0 && open.last() == opener_of(c) && brackets_from(rest, open.drop_last())
            } else {
                brackets_from(rest, open)
            },
            _ => brackets_from(rest, open),
        }
    }
}

pub open spec fn brackets_valid(ts: Seq<Lexeme>) -> bool {
    brackets_from(ts, seq![])
}

/// Whether every closing brace or bracket meets a matching open one, and
/// every opening brace is closed.
pub fn valid_parantheses(token_stream: &TokenStream) -> (r: bool)
    ensures
        r == brackets_valid(token_stream@),
{
    let tokens = &token_stream.tokens;
    let ghost ts = token_stream@;
    let mut open: Vec<char> = Vec::new();
    let mut i: usize = 0;
    assert(ts.skip(0) == ts);
    while i < tokens.len()
        invariant
            i <= tokens@.len(),
            ts == lexemes(tokens@),
            ts == token_stream@,
            ts.len() == tokens@.len(),
            brackets_valid(ts) == brackets_from(ts.skip(i as int), open@),
        decreases tokens@.len() - i,
    {
        let ghost rest = ts.skip(i as int);
        assert(rest.drop_first() == ts.skip(i + 1));
        assert(rest[0] == tokens@[i as int]@);
        let ghost before = open@;
        match &tokens[i] {
            Token::JsonCharacter(Character(c)) => {
                if *c == constants::LEFT_BRACE {
                    open.push(*c);
                } else if *c == constants::RIGHT_BRACE || *c == constants::RIGHT_BRACKET {
                    match open.pop() {
                        None => {
                            assert(!brackets_from(rest, before));
                            return false;
                        },
                        Some(last) => {
                            assert(last == before.last());
                            assert(brackets_from(rest, before) == (last == opener_of(*c)
                                && brackets_from(rest.drop_first(), open@)));
                            if *c == constants::RIGHT_BRACE && last != constants::LEFT_BRACE {
                                return false;
                            }
                            if *c == constants::RIGHT_BRACKET && last != constants::LEFT_BRACKET {
                                return false;
                            }
                        },
                    }
                }
            },
            _ => {},
        }
        i += 1;
    }
    open.len() == 0
}


// ---------------------------------------------------------------------
// Grammar: values, pairs and the members of an object.
// ---------------------------------------------------------------------

/// The value that one token stands for; only scalars and null are values.
pub open spec fn value_of(l: Lexeme) -> Result<Scalar, ParseError> {
    match l {
        Lexeme::Text(t) => Ok(Scalar::Text(t)),
        Lexeme::Num(n, d) => Ok(Scalar::Num(n, d)),
        Lexeme::Bool(b) => Ok(Scalar::Bool(b)),
        Lexeme::Null => Ok(Scalar::Null),
        _ => Err(ParseError::InvalidValue),
    }
}

/// The pair at the start of `s`: an optional comma, a string key, a colon
/// and one value. A lone closing brace where a pair should be ends the
/// members of the object.
pub open spec fn pair_scan(s: Seq<Lexeme>) -> Result<(Seq<char>, Scalar), ParseError> {
    if s.len() < 3 {
        if s.len() > 0 && s[0] == Lexeme::Punct('}') {
            Err(ParseError::EmptyObject)
        } else {
            Err(ParseError::InvalidPair)
        }
    } else {
        let p = if s[0] == Lexeme::Punct(',') { s.drop_first() } else { s };
        match p[0] {
            Lexeme::Text(key) => if p[1] != Lexeme::Punct(':') || p.len() < 3 {
                Err(ParseError::InvalidPair)
            } else {
                match value_of(p[2]) {
                    Ok(v) => Ok((key, v)),
                    Err(e) => Err(e),
                }
            },
            _ => Err(ParseError::InvalidPair),
        }
    }
}

/// How many tokens the pair at the start of `s` takes: four when a comma
/// leads it, three otherwise.
pub open spec fn pair_len(s: Seq<Lexeme>) -> int {
    if s.len() > 0 && s[0] == Lexeme::Punct(',') {
        4
    } else {
        3
    }
}

/// The members of an object whose tokens are `s`, read pair after pair up
/// to the closing brace or the end of the tokens.
pub open spec fn members_of(s: Seq<Lexeme>) -> Result<Seq<(Seq<char>, Scalar)>, ParseError>
    decreases s.len(),
{
    if s.len() == 0 {
        Ok(seq![])
    } else {
        match pair_scan(s) {
            // A pair that reads always has all its tokens in `s`.
            Ok(p) => if pair_len(s) <= s.len() {
                match members_of(s.skip(pair_len(s))) {
                    Ok(m) => Ok(seq![p] + m),
                    Err(e) => Err(e),
                }
            } else {
                Err(ParseError::InvalidPair)
            },
            Err(e) => if e == ParseError::EmptyObject {
                Ok(seq![])
            } else {
                Err(e)
            },
        }
    }
}

/// The tokens without the newlines among them.
pub open spec fn without_newlines(ts: Seq<Lexeme>) -> Seq<Lexeme>
    decreases ts.len(),
{
    if ts.len() == 0 {
        seq![]
    } else {
        let r = without_newlines(ts.drop_last());
        if ts.last() == Lexeme::Punct('\n') {
            r
        } else {
            r.push(ts.last())
        }
    }
}

/// The members of the object that a token stream holds: the brackets are
/// checked, the stream must open with a brace or a bracket, newlines are
/// dropped, and what follows the opening mark is read as object members.
pub open spec fn parse_spec(ts: Seq<Lexeme>) -> Result<Seq<(Seq<char>, Scalar)>, ParseError> {
    if !brackets_valid(ts) {
        Err(ParseError::InvalidParantheses)
    } else if ts.len() == 0 {
        Err(ParseError::EmptyJson)
    } else if ts[0] != Lexeme::Punct('{') && ts[0] != Lexeme::Punct('[') {
        Err(ParseError::NotValidJsonObjectOrArray)
    } else {
        members_of(without_newlines(ts).skip(1))
    }
}

fn is_punct(t: &Token, c: char) -> (r: bool)
    ensures
        r == (t@ == Lexeme::Punct(c)),
{
    match t {
        Token::JsonCharacter(Character(x)) => *x == c,
        _ => false,
    }
}

fn copy_token(t: &Token) -> (r: Token)
    ensures
        r@ == t@,
{
    match t {
        Token::JsonString(s) => Token::JsonString(s.clone()),
        Token::Number(d) => Token::Number(Decimal { negative: d.negative, digits: d.digits.clone() }),
        Token::Boolean(b) => Token::Boolean(*b),
        Token::JsonCharacter(c) => Token::JsonCharacter(*c),
        Token::Null => Token::Null,
        Token::Other(c) => Token::Other(*c),
    }
}

fn value_at(token_stream: &[Token], at: usize) -> (r: Result<JsonValue, ParseError>)
    requires
        at < token_stream@.len(),
    ensures
        match (r, value_of(token_stream@[at as int]@)) {
            (Ok(v), Ok(m)) => scalar_of(v) == m,
            (Err(e), Err(f)) => e == f,
            _ => false,
        },
{
    match &token_stream[at] {
        Token::JsonString(st) => Ok(JsonValue::String(st.clone())),
        Token::Number(nr) => Ok(
            JsonValue::Number(Decimal { negative: nr.negative, digits: nr.digits.clone() }),
        ),
        Token::Boolean(b) => Ok(JsonValue::Boolean(*b)),
        Token::JsonCharacter(_) => Err(ParseError::InvalidValue),
        Token::Null => Ok(JsonValue::Null),
        Token::Other(_) => Err(ParseError::InvalidValue),
    }
}

/// The value of the first token.
pub fn parse_value(token_stream: &[Token]) -> (r: Result<JsonValue, ParseError>)
    requires
        token_stream@.len() > 0,
    ensures
        match (r, value_of(token_stream@[0]@)) {
            (Ok(v), Ok(m)) => scalar_of(v) == m,
            (Err(e), Err(f)) => e == f,
            _ => false,
        },
{
    value_at(token_stream, 0)
}

fn pair_at(token_stream: &[Token], at: usize) -> (r: Result<JsonPair, ParseError>)
    requires
        at <= token_stream@.len(),
    ensures
        match (r, pair_scan(lexemes(token_stream@).skip(at as int))) {
            (Ok(p), Ok(m)) => (p.0@, scalar_of(p.1)) == m,
            (Err(e), Err(f)) => e == f,
            _ => false,
        },
        r is Ok ==> at + pair_len(lexemes(token_stream@).skip(at as int)) <= token_stream@.len(),
{
    let ghost s = lexemes(token_stream@).skip(at as int);
    let n = token_stream.len();
    assert(s.len() == n - at);
    assert(forall|j: int| 0 <= j < s.len() ==> s[j] == #[trigger] token_stream@[at + j]@);
    if n - at < 3 {
        if at < n && is_punct(&token_stream[at], '}') {
            return Err(ParseError::EmptyObject);
        } else {
            return Err(ParseError::InvalidPair);
        }
    }
    let mut k = at;
    if is_punct(&token_stream[k], ',') {
        k = k + 1;
    }
    let ghost p = if s[0] == Lexeme::Punct(',') { s.drop_first() } else { s };
    assert(forall|j: int| 0 <= j < p.len() ==> p[j] == #[trigger] token_stream@[k + j]@);
    let name = match &token_stream[k] {
        Token::JsonString(name) => name.clone(),
        _ => {
            return Err(ParseError::InvalidPair);
        },
    };
    if !is_punct(&token_stream[k + 1], ':') || n - k < 3 {
        return Err(ParseError::InvalidPair);
    }
    match value_at(token_stream, k + 2) {
        Ok(value) => Ok(JsonPair(name, value)),
        Err(e) => Err(e),
    }
}

/// The pair at the start of the tokens.
pub fn parse_pair(token_stream: &[Token]) -> (r: Result<JsonPair, ParseError>)
    ensures
        match (r, pair_scan(lexemes(token_stream@))) {
            (Ok(p), Ok(m)) => (p.0@, scalar_of(p.1)) == m,
            (Err(e), Err(f)) => e == f,
            _ => false,
        },
{
    assert(lexemes(token_stream@).skip(0) == lexemes(token_stream@));
    pair_at(token_stream, 0)
}

pub open spec fn prepend_pairs(
    done: Seq<(Seq<char>, Scalar)>,
    r: Result<Seq<(Seq<char>, Scalar)>, ParseError>,
) -> Result<Seq<(Seq<char>, Scalar)>, ParseError> {
    match r {
        Ok(m) => Ok(done + m),
        Err(e) => Err(e),
    }
}

fn members_at(token_stream: &[Token], start: usize) -> (r: Result<Vec<JsonPair>, ParseError>)
    requires
        start <= token_stream@.len(),
    ensures
        match (r, members_of(lexemes(token_stream@).skip(start as int))) {
            (Ok(ps), Ok(m)) => pairs_view(ps@) == m,
            (Err(e), Err(f)) => e == f,
            _ => false,
        },
{
    let ghost s = lexemes(token_stream@);
    let mut result: Vec<JsonPair> = Vec::new();
    let mut index = start;
    proof {
        if let Ok(m) = members_of(s.skip(start as int)) {
            assert(pairs_view(result@) + m =~= m);
        }
    }
    while index < token_stream.len()
        invariant
            s == lexemes(token_stream@),
            s.len() == token_stream@.len(),
            start <= index <= token_stream@.len(),
            members_of(s.skip(start as int)) == prepend_pairs(
                pairs_view(result@),
                members_of(s.skip(index as int)),
            ),
        decreases token_stream@.len() - index,
    {
        let ghost done = pairs_view(result@);
        let ghost rest = s.skip(index as int);
        assert(rest.len() > 0);
        match pair_at(token_stream, index) {
            Ok(pair) => {
                let ghost m = (pair.0@, scalar_of(pair.1));
                let width: usize = if is_punct(&token_stream[index], ',') { 4 } else { 3 };
                assert(rest[0] == token_stream@[index as int]@);
                assert(width == pair_len(rest));
                result.push(pair);
                assert(pairs_view(result@) =~= done.push(m));
                assert(rest.skip(width as int) =~= s.skip(index + width));
                index = index + width;
                proof {
                    if let Ok(more) = members_of(s.skip(index as int)) {
                        assert(done + (seq![m] + more) =~= done.push(m) + more);
                    }
                }
            },
            Err(e) => {
                if e == ParseError::EmptyObject {
                    assert(pairs_view(result@) + seq![] =~= pairs_view(result@));
                    return Ok(result);
                }
                return Err(e);
            },
        }
    }
    proof {
        assert(s.skip(index as int).len() == 0);
        assert(pairs_view(result@) + seq![] =~= pairs_view(result@));
    }
    Ok(result)
}

/// The members of an object, from the tokens that follow its opening brace.
pub fn parse_object_members(token_stream: &[Token]) -> (r: Result<Vec<JsonPair>, ParseError>)
    ensures
        match (r, members_of(lexemes(token_stream@))) {
            (Ok(ps), Ok(m)) => pairs_view(ps@) == m,
            (Err(e), Err(f)) => e == f,
            _ => false,
        },
{
    assert(lexemes(token_stream@).skip(0) == lexemes(token_stream@));
    members_at(token_stream, 0)
}

/// An object, from the tokens that follow its opening brace.
pub fn parse_object(token_stream: &[Token]) -> (r: Result<JsonValue, ParseError>)
    ensures
        match (r, members_of(lexemes(token_stream@))) {
            (Ok(v), Ok(m)) => v is JsonObject && pairs_view(v->JsonObject_0@) == m,
            (Err(e), Err(f)) => e == f,
            _ => false,
        },
{
    match parse_object_members(token_stream) {
        Ok(members) => Ok(JsonValue::JsonObject(members)),
        Err(e) => Err(e),
    }
}

fn drop_newlines(tokens: &Vec<Token>) -> (r: Vec<Token>)
    ensures
        lexemes(r@) == without_newlines(lexemes(tokens@)),
{
    let mut kept: Vec<Token> = Vec::new();
    let mut i: usize = 0;
    while i < tokens.len()
        invariant
            i <= tokens@.len(),
            lexemes(kept@) == without_newlines(lexemes(tokens@.take(i as int))),
        decreases tokens@.len() - i,
    {
        let ghost prev = tokens@.take(i as int);
        assert(tokens@.take(i + 1).drop_last() == prev);
        assert(lexemes(tokens@.take(i + 1)).drop_last() == lexemes(prev));
        if !is_punct(&tokens[i], constants::NEW_LINE) {
            let t = copy_token(&tokens[i]);
            kept.push(t);
            assert(lexemes(kept@) =~= without_newlines(lexemes(prev)).push(t@));
        }
        i += 1;
    }
    assert(tokens@.take(tokens@.len() as int) == tokens@);
    kept
}

/// The object that a token stream holds.
pub fn parse(input_stream: TokenStream) -> (r: Result<JsonValue, ParseError>)
    ensures
        match (r, parse_spec(input_stream@)) {
            (Ok(v), Ok(m)) => v is JsonObject && pairs_view(v->JsonObject_0@) == m,
            (Err(e), Err(f)) => e == f,
            _ => false,
        },
{
    if !valid_parantheses(&input_stream) {
        return Err(ParseError::InvalidParantheses);
    }
    if input_stream.tokens.len() == 0 {
        return Err(ParseError::EmptyJson);
    }
    if !is_punct(&input_stream.tokens[0], constants::LEFT_BRACE) && !is_punct(
        &input_stream.tokens[0],
        constants::LEFT_BRACKET,
    ) {
        return Err(ParseError::NotValidJsonObjectOrArray);
    }
    let kept = drop_newlines(&input_stream.tokens);
    proof {
        let ts = input_stream@;
        assert(ts[0] == input_stream.tokens@[0]@);
        lemma_without_newlines_concat(seq![ts[0]], ts.drop_first());
        assert(seq![ts[0]] + ts.drop_first() =~= ts);
        assert(seq![ts[0]].drop_last() =~= Seq::<Lexeme>::empty());
        assert(ts[0] != Lexeme::Punct('\n'));
        assert(without_newlines(Seq::<Lexeme>::empty()) == Seq::<Lexeme>::empty());
        assert(Seq::<Lexeme>::empty().push(ts[0]) =~= seq![ts[0]]);
        assert(without_newlines(seq![ts[0]]) == seq![ts[0]]);
    }
    match members_at(kept.as_slice(), 1) {
        Ok(members) => Ok(JsonValue::JsonObject(members)),
        Err(e) => Err(e),
    }
}


// ---------------------------------------------------------------------
// Laws.
// ---------------------------------------------------------------------

/// How much a token changes the nesting depth as the validator sees it.
pub open spec fn bracket_delta(l: Lexeme) -> int {
    match l {
        Lexeme::Punct(c) => if c == '{' {
            1
        } else if c == '}' || c == ']' {
            -1
        } else {
            0
        },
        _ => 0,
    }
}

/// Opening braces minus closing braces and brackets.
pub open spec fn balance(ts: Seq<Lexeme>) -> int
    decreases ts.len(),
{
    if ts.len() == 0 {
        0
    } else {
        bracket_delta(ts[0]) + balance(ts.drop_first())
    }
}

proof fn lemma_prefix_balance(ts: Seq<Lexeme>, open: Seq<char>, k: int)
    requires
        brackets_from(ts, open),
        0 <= k <= ts.len(),
    ensures
        open.len() + balance(ts.take(k)) >= 0,
    decreases ts.len(),
{
    if k > 0 {
        let rest = ts.drop_first();
        assert(ts.take(k).drop_first() =~= rest.take(k - 1));
        assert(ts.take(k)[0] == ts[0]);
        match ts[0] {
            Lexeme::Punct(c) => {
                if c == '{' {
                    lemma_prefix_balance(rest, open.push('{'), k - 1);
                } else if c == '}' || c == ']' {
                    lemma_prefix_balance(rest, open.drop_last(), k - 1);
                } else {
                    lemma_prefix_balance(rest, open, k - 1);
                }
            },
            _ => {
                lemma_prefix_balance(rest, open, k - 1);
            },
        }
    }
}

/// A stream in which some prefix closes more than it opens is rejected by
/// the bracket validator.
pub proof fn lemma_unmatched_closer_rejected(ts: Seq<Lexeme>, k: int)
    requires
        0 <= k <= ts.len(),
        balance(ts.take(k)) < 0,
    ensures
        !brackets_valid(ts),
{
    if brackets_valid(ts) {
        lemma_prefix_balance(ts, seq![], k);
    }
}

proof fn lemma_final_balance(ts: Seq<Lexeme>, open: Seq<char>)
    requires
        brackets_from(ts, open),
    ensures
        open.len() + balance(ts) == 0,
    decreases ts.len(),
{
    if ts.len() > 0 {
        let rest = ts.drop_first();
        match ts[0] {
            Lexeme::Punct(c) => {
                if c == '{' {
                    lemma_final_balance(rest, open.push('{'));
                } else if c == '}' || c == ']' {
                    lemma_final_balance(rest, open.drop_last());
                } else {
                    lemma_final_balance(rest, open);
                }
            },
            _ => {
                lemma_final_balance(rest, open);
            },
        }
    }
}

/// A stream that opens more braces than it closes is rejected by the
/// bracket validator.
pub proof fn lemma_unclosed_brace_rejected(ts: Seq<Lexeme>)
    requires
        balance(ts) > 0,
    ensures
        !brackets_valid(ts),
{
    if brackets_valid(ts) {
        lemma_final_balance(ts, seq![]);
    }
}

proof fn lemma_bracket_closer_fails(ts: Seq<Lexeme>, open: Seq<char>, i: int)
    requires
        0 <= i < ts.len(),
        ts[i] == Lexeme::Punct(']'),
        forall|j: int| 0 <= j < open.len() ==> open[j] == '{',
    ensures
        !brackets_from(ts, open),
    decreases ts.len(),
{
    let rest = ts.drop_first();
    if i > 0 {
        assert(rest[i - 1] == ts[i]);
        match ts[0] {
            Lexeme::Punct(c) => {
                if c == '{' {
                    let o = open.push('{');
                    assert(forall|j: int| 0 <= j < o.len() ==> o[j] == '{');
                    lemma_bracket_closer_fails(rest, o, i - 1);
                } else if (c == '}' || c == ']') && open.len() > 0 {
                    let o = open.drop_last();
                    assert(forall|j: int| 0 <= j < o.len() ==> o[j] == open[j]);
                    lemma_bracket_closer_fails(rest, o, i - 1);
                } else if c != '}' && c != ']' {
                    lemma_bracket_closer_fails(rest, open, i - 1);
                }
            },
            _ => {
                lemma_bracket_closer_fails(rest, open, i - 1);
            },
        }
    } else if open.len() > 0 {
        assert(open.last() == '{');
    }
}

/// A closing square bracket is never matched, since only braces are opened:
/// a stream holding one is rejected by the bracket validator.
pub proof fn lemma_bracket_closer_rejected(ts: Seq<Lexeme>, i: int)
    requires
        0 <= i < ts.len(),
        ts[i] == Lexeme::Punct(']'),
    ensures
        !brackets_valid(ts),
{
    lemma_bracket_closer_fails(ts, seq![], i);
}

pub(crate) proof fn lemma_without_newlines_concat(a: Seq<Lexeme>, b: Seq<Lexeme>)
    ensures
        without_newlines(a + b) == without_newlines(a) + without_newlines(b),
    decreases b.len(),
{
    if b.len() == 0 {
        assert(a + b =~= a);
        assert(without_newlines(a) + seq![] =~= without_newlines(a));
    } else {
        assert((a + b).drop_last() =~= a + b.drop_last());
        lemma_without_newlines_concat(a, b.drop_last());
        if b.last() != Lexeme::Punct('\n') {
            assert(without_newlines(a) + without_newlines(b.drop_last()).push(b.last()) =~= (
            without_newlines(a) + without_newlines(b.drop_last())).push(b.last()));
        }
    }
}

/// A member whose value is itself an opening brace (a nested object) is not
/// supported: a stream whose first member is such is rejected with
/// `InvalidValue`, once its brackets are balanced.
pub proof fn lemma_nested_object_value_rejected(key: Seq<char>, rest: Seq<Lexeme>)
    requires
        brackets_valid(
            seq![Lexeme::Punct('{'), Lexeme::Text(key), Lexeme::Punct(':'), Lexeme::Punct('{')]
                + rest,
        ),
    ensures
        parse_spec(
            seq![Lexeme::Punct('{'), Lexeme::Text(key), Lexeme::Punct(':'), Lexeme::Punct('{')]
                + rest,
        ) == Err::<Seq<(Seq<char>, Scalar)>, ParseError>(ParseError::InvalidValue),
{
    let head = seq![Lexeme::Punct('{'), Lexeme::Text(key), Lexeme::Punct(':'), Lexeme::Punct('{')];
    let ts = head + rest;
    assert(ts[0] == Lexeme::Punct('{'));
    lemma_without_newlines_concat(head, rest);
    assert(head.drop_last().drop_last().drop_last().drop_last() =~= Seq::<Lexeme>::empty());
    assert(without_newlines(head) =~= head) by {
        reveal_with_fuel(without_newlines, 5);
        assert(head.drop_last().drop_last().drop_last() =~= seq![Lexeme::Punct('{')]);
        assert(head.drop_last().drop_last() =~= seq![Lexeme::Punct('{'), Lexeme::Text(key)]);
        assert(head.drop_last() =~= seq![
            Lexeme::Punct('{'),
            Lexeme::Text(key),
            Lexeme::Punct(':'),
        ]);
    }
    let w = without_newlines(ts);
    assert(w.skip(1)[0] == Lexeme::Text(key));
    assert(w.skip(1)[1] == Lexeme::Punct(':'));
    assert(w.skip(1)[2] == Lexeme::Punct('{'));
}

} // verus!
