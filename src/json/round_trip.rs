//! Writing an object as text and reading it back.
use vstd::prelude::*;

use super::lexer::{
    LexerError,
    after_bool,
    after_null,
    after_number,
    after_string,
    Lexeme,
    is_number_char,
    is_white,
    decimal_error,
    next_quote,
    number_end,
    pass,
    tokenize,
    tokens_from,
    trim_end,
    trim_start,
    trimmed,
};
use super::syntactic_analyzer::{
    ParseError,
    Scalar,
    brackets_from,
    brackets_valid,
    lemma_without_newlines_concat,
    bracket_delta,
    members_of,
    pair_len,
    pair_scan,
    parse_spec,
    value_of,
    without_newlines,
};

verus! {

/// The text of a member's value.
pub open spec fn scalar_text(v: Scalar) -> Seq<char> {
    match v {
        Scalar::Text(t) => seq!['"'] + t + seq!['"'],
        Scalar::Num(negative, d) => if negative {
            seq!['-'] + d
        } else {
            d
        },
        Scalar::Bool(b) => if b {
            seq!['t', 'r', 'u', 'e']
        } else {
            seq!['f', 'a', 'l', 's', 'e']
        },
        Scalar::Null => seq!['n', 'u', 'l', 'l'],
        Scalar::Compound => seq![],
    }
}

/// The text of one member: the quoted key, a colon and the value.
pub open spec fn pair_text(p: (Seq<char>, Scalar)) -> Seq<char> {
    seq!['"'] + p.0 + seq!['"', ':'] + scalar_text(p.1)
}

/// The members, one per line, separated by commas.
pub open spec fn members_text(ps: Seq<(Seq<char>, Scalar)>) -> Seq<char>
    decreases ps.len(),
{
    if ps.len() == 0 {
        seq![]
    } else if ps.len() == 1 {
        pair_text(ps[0]) + seq!['\n']
    } else {
        pair_text(ps[0]) + seq![',', '\n'] + members_text(ps.drop_first())
    }
}

/// An object written with its braces on lines of their own.
pub open spec fn object_text(ps: Seq<(Seq<char>, Scalar)>) -> Seq<char> {
    seq!['{', '\n'] + members_text(ps) + seq!['}']
}

pub open spec fn no_quote(s: Seq<char>) -> bool {
    forall|i: int| 0 <= i < s.len() ==> s[i] != '"'
}

/// A value that the grammar can write down: a string without quotes in it,
/// a number made of digits and at most one dot, a boolean or null.
pub open spec fn writable(v: Scalar) -> bool {
    match v {
        Scalar::Text(t) => no_quote(t),
        Scalar::Num(_, d) => (forall|i: int| 0 <= i < d.len() ==> is_number_char(#[trigger] d[i]))
            && decimal_error(d) is None,
        Scalar::Bool(_) => true,
        Scalar::Null => true,
        Scalar::Compound => false,
    }
}

/// A member that can be written: a key without quotes and a writable value.
pub open spec fn writable_pair(p: (Seq<char>, Scalar)) -> bool {
    no_quote(p.0) && writable(p.1)
}

/// Members that can all be written.
pub open spec fn writable_members(ps: Seq<(Seq<char>, Scalar)>) -> bool {
    forall|i: int| 0 <= i < ps.len() ==> writable_pair(#[trigger] ps[i])
}

/// The token that a written value reads back as.
pub open spec fn scalar_lexeme(v: Scalar) -> Lexeme {
    match v {
        Scalar::Text(t) => Lexeme::Text(t),
        Scalar::Num(n, d) => Lexeme::Num(n, d),
        Scalar::Bool(b) => Lexeme::Bool(b),
        _ => Lexeme::Null,
    }
}

proof fn lemma_trimmed_unchanged(s: Seq<char>)
    requires
        s.len() > 0,
        !is_white(s[0]),
        !is_white(s.last()),
    ensures
        trimmed(s) == s,
{
    assert(trim_start(s) == s);
    assert(trim_end(s) == s);
}

proof fn lemma_quote_run(s: Seq<char>, k: Seq<char>, i: int)
    requires
        no_quote(k),
        1 <= i <= k.len() + 1,
        k.len() + 1 < s.len(),
        s.subrange(1, k.len() + 1int) == k,
        s[k.len() + 1int] == '"',
    ensures
        next_quote(s, i) == k.len() + 1,
    decreases k.len() + 1 - i,
{
    if i < k.len() + 1 {
        assert(s[i] == k[i - 1]);
        lemma_quote_run(s, k, i + 1);
    }
}

proof fn lemma_number_run(s: Seq<char>, start: int, d: Seq<char>, i: int)
    requires
        0 <= start <= i <= start + d.len(),
        start + d.len() < s.len(),
        s.subrange(start, start + d.len()) == d,
        forall|j: int| 0 <= j < d.len() ==> is_number_char(#[trigger] d[j]),
        !is_number_char(s[start + d.len()]),
    ensures
        number_end(s, i) == start + d.len(),
    decreases start + d.len() - i,
{
    if i < start + d.len() {
        assert(s[i] == d[i - start]);
        lemma_number_run(s, start, d, i + 1);
    }
}

pub open spec fn is_mark(c: char) -> bool {
    c == '{' || c == '}' || c == ':' || c == '\n' || c == ','
}

/// Text that opens with a structural mark other than a quote holds no
/// number, boolean or null at its start.
proof fn lemma_no_value(s: Seq<char>)
    requires
        s.len() > 0,
        is_mark(s[0]),
    ensures
        after_number(s) == (Seq::<Lexeme>::empty(), s),
        after_bool(s) == (Seq::<Lexeme>::empty(), s),
        after_null(s) == (Seq::<Lexeme>::empty(), s),
{
    assert(number_end(s, 0) == 0);
    assert(s.subrange(0, 0) =~= Seq::<char>::empty());
}

/// A pass over text that opens with a structural mark other than a quote
/// yields that mark alone.
proof fn lemma_pass_punct(s: Seq<char>)
    requires
        s.len() > 0,
        is_mark(s[0]),
    ensures
        pass(s) == Ok::<(Seq<Lexeme>, Seq<char>), LexerError>(
            (seq![Lexeme::Punct(s[0])], s.skip(1)),
        ),
{
    lemma_no_value(s);
    assert(Seq::<Lexeme>::empty() + Seq::<Lexeme>::empty() + Seq::<Lexeme>::empty()
        + Seq::<Lexeme>::empty() =~= Seq::<Lexeme>::empty());
    assert(Seq::<Lexeme>::empty().push(Lexeme::Punct(s[0])) =~= seq![Lexeme::Punct(s[0])]);
}

proof fn lemma_string_read(k: Seq<char>, rest: Seq<char>)
    requires
        no_quote(k),
    ensures
        after_string(seq!['"'] + k + seq!['"'] + rest) == (seq![Lexeme::Text(k)], rest),
{
    let s = seq!['"'] + k + seq!['"'] + rest;
    assert(s.subrange(1, k.len() + 1int) =~= k);
    assert(s[k.len() + 1int] == '"');
    lemma_quote_run(s, k, 1);
    assert(s.skip(k.len() + 2int) =~= rest);
}

/// A pass over a quoted key followed by a colon.
proof fn lemma_pass_key(k: Seq<char>, rest: Seq<char>)
    requires
        no_quote(k),
        rest.len() > 0,
        rest[0] == ':',
    ensures
        pass(seq!['"'] + k + seq!['"'] + rest) == Ok::<(Seq<Lexeme>, Seq<char>), LexerError>(
            (seq![Lexeme::Text(k), Lexeme::Punct(':')], rest.skip(1)),
        ),
{
    lemma_string_read(k, rest);
    lemma_no_value(rest);
    assert(seq![Lexeme::Text(k)] + Seq::<Lexeme>::empty() + Seq::<Lexeme>::empty()
        + Seq::<Lexeme>::empty() =~= seq![Lexeme::Text(k)]);
    assert(seq![Lexeme::Text(k)].push(Lexeme::Punct(':')) =~= seq![
        Lexeme::Text(k),
        Lexeme::Punct(':'),
    ]);
}

/// A pass over a written value followed by a newline or a comma.
proof fn lemma_pass_value(v: Scalar, tail: Seq<char>)
    requires
        writable(v),
        tail.len() > 0,
        tail[0] == '\n' || tail[0] == ',',
    ensures
        pass(scalar_text(v) + tail) == Ok::<(Seq<Lexeme>, Seq<char>), LexerError>(
            (seq![scalar_lexeme(v), Lexeme::Punct(tail[0])], tail.skip(1)),
        ),
{
    let s = scalar_text(v) + tail;
    let e = Seq::<Lexeme>::empty();
    let one = seq![scalar_lexeme(v)];
    lemma_no_value(tail);
    match v {
        Scalar::Text(t) => {
            assert(s =~= seq!['"'] + t + seq!['"'] + tail);
            lemma_string_read(t, tail);
            assert(one + e + e + e =~= one);
        },
        Scalar::Num(negative, d) => {
            let start: int = if negative { 1 } else { 0 };
            assert(d.len() > 0);
            assert(is_number_char(d[0]));
            assert(s.subrange(start, start + d.len()) =~= d);
            assert(s[start + d.len()] == tail[0]);
            assert(s[0] == '-' <==> negative);
            lemma_number_run(s, start, d, start);
            assert(s.skip(start + d.len()) =~= tail);
            assert(after_string(s) == (e, s));
            assert(after_number(s) == (one, tail));
            assert(e + one + e + e =~= one);
        },
        Scalar::Bool(b) => {
            assert(number_end(s, 0) == 0);
            assert(after_string(s) == (e, s));
            assert(after_number(s) == (e, s));
            if b {
                assert(s.skip(4) =~= tail);
            } else {
                assert(s.skip(5) =~= tail);
            }
            assert(after_bool(s) == (one, tail));
            assert(e + e + one + e =~= one);
        },
        Scalar::Null => {
            assert(number_end(s, 0) == 0);
            assert(after_string(s) == (e, s));
            assert(after_number(s) == (e, s));
            assert(after_bool(s) == (e, s));
            assert(s.skip(4) =~= tail);
            assert(after_null(s) == (one, tail));
            assert(e + e + e + one =~= one);
        },
        Scalar::Compound => {},
    }
    assert(one.push(Lexeme::Punct(tail[0])) =~= seq![scalar_lexeme(v), Lexeme::Punct(tail[0])]);
}


/// The tokens of the members as written by `members_text`.
pub open spec fn members_lexemes(ps: Seq<(Seq<char>, Scalar)>) -> Seq<Lexeme>
    decreases ps.len(),
{
    if ps.len() == 0 {
        seq![]
    } else if ps.len() == 1 {
        seq![
            Lexeme::Text(ps[0].0),
            Lexeme::Punct(':'),
            scalar_lexeme(ps[0].1),
            Lexeme::Punct('\n'),
        ]
    } else {
        seq![
            Lexeme::Text(ps[0].0),
            Lexeme::Punct(':'),
            scalar_lexeme(ps[0].1),
            Lexeme::Punct(','),
            Lexeme::Punct('\n'),
        ] + members_lexemes(ps.drop_first())
    }
}

/// The tokens of an object as written by `object_text`.
pub open spec fn object_lexemes(ps: Seq<(Seq<char>, Scalar)>) -> Seq<Lexeme> {
    seq![Lexeme::Punct('{'), Lexeme::Punct('\n')] + members_lexemes(ps) + seq![Lexeme::Punct('}')]
}

proof fn lemma_tokens_close()
    ensures
        tokens_from(seq!['}']) == Ok::<Seq<Lexeme>, LexerError>(seq![Lexeme::Punct('}')]),
{
    let close = seq!['}'];
    lemma_pass_punct(close);
    assert(close.skip(1) =~= Seq::<char>::empty());
    assert(tokens_from(Seq::<char>::empty()) == Ok::<Seq<Lexeme>, LexerError>(seq![]));
    assert(seq![Lexeme::Punct('}')] + Seq::<Lexeme>::empty() =~= seq![Lexeme::Punct('}')]);
}

/// One member and what follows it: the member's tokens come first.
proof fn lemma_tokens_member(k: Seq<char>, v: Scalar, tail: Seq<char>)
    requires
        no_quote(k),
        writable(v),
        tail.len() > 0,
        tail[0] == '\n' || tail[0] == ',',
        tokens_from(tail.skip(1)) is Ok,
    ensures
        tokens_from(pair_text((k, v)) + tail) == Ok::<Seq<Lexeme>, LexerError>(
            seq![Lexeme::Text(k), Lexeme::Punct(':'), scalar_lexeme(v), Lexeme::Punct(tail[0])]
                + tokens_from(tail.skip(1))->Ok_0,
        ),
{
    let rest = seq![':'] + scalar_text(v) + tail;
    let s2 = pair_text((k, v)) + tail;
    assert(s2 =~= seq!['"'] + k + seq!['"'] + rest);
    lemma_pass_key(k, rest);
    let s3 = rest.skip(1);
    assert(s3 =~= scalar_text(v) + tail);
    lemma_pass_value(v, tail);
    let after = tokens_from(tail.skip(1))->Ok_0;
    let t4 = seq![scalar_lexeme(v), Lexeme::Punct(tail[0])];
    assert(tokens_from(s3) == Ok::<Seq<Lexeme>, LexerError>(t4 + after));
    let t3 = seq![Lexeme::Text(k), Lexeme::Punct(':')];
    assert(t3 + (t4 + after) =~= seq![
        Lexeme::Text(k),
        Lexeme::Punct(':'),
        scalar_lexeme(v),
        Lexeme::Punct(tail[0]),
    ] + after);
}

proof fn lemma_tokens_members(ps: Seq<(Seq<char>, Scalar)>)
    requires
        writable_members(ps),
    ensures
        tokens_from(members_text(ps) + seq!['}']) == Ok::<Seq<Lexeme>, LexerError>(
            members_lexemes(ps) + seq![Lexeme::Punct('}')],
        ),
    decreases ps.len(),
{
    lemma_tokens_close();
    if ps.len() == 0 {
        assert(members_text(ps) + seq!['}'] =~= seq!['}']);
        assert(members_lexemes(ps) + seq![Lexeme::Punct('}')] =~= seq![Lexeme::Punct('}')]);
    } else {
        let k = ps[0].0;
        let v = ps[0].1;
        assert(writable_pair(ps[0]));
        if ps.len() == 1 {
            let tail = seq!['\n', '}'];
            assert(tail.skip(1) =~= seq!['}']);
            assert(members_text(ps) + seq!['}'] =~= pair_text((k, v)) + tail);
            lemma_tokens_member(k, v, tail);
            assert(members_lexemes(ps) + seq![Lexeme::Punct('}')] =~= seq![
                Lexeme::Text(k),
                Lexeme::Punct(':'),
                scalar_lexeme(v),
                Lexeme::Punct('\n'),
            ] + seq![Lexeme::Punct('}')]);
        } else {
            let rest = ps.drop_first();
            assert forall|i: int| 0 <= i < rest.len() implies writable_pair(#[trigger] rest[i]) by {
                assert(rest[i] == ps[i + 1]);
            }
            lemma_tokens_members(rest);
            let more = members_text(rest) + seq!['}'];
            let after = members_lexemes(rest) + seq![Lexeme::Punct('}')];
            let tail = seq![','] + (seq!['\n'] + more);
            let nl = seq!['\n'] + more;
            assert(tail.skip(1) =~= nl);
            lemma_pass_punct(nl);
            assert(nl.skip(1) =~= more);
            assert(tokens_from(nl) == Ok::<Seq<Lexeme>, LexerError>(
                seq![Lexeme::Punct('\n')] + after,
            ));
            assert(members_text(ps) + seq!['}'] =~= pair_text((k, v)) + tail);
            lemma_tokens_member(k, v, tail);
            assert(members_lexemes(ps) + seq![Lexeme::Punct('}')] =~= seq![
                Lexeme::Text(k),
                Lexeme::Punct(':'),
                scalar_lexeme(v),
                Lexeme::Punct(','),
            ] + (seq![Lexeme::Punct('\n')] + after));
        }
    }
}

/// An object of any number of string, number, boolean and null members,
/// written as text, tokenizes into the tokens of its members in order.
pub proof fn lemma_tokenize_object(ps: Seq<(Seq<char>, Scalar)>)
    requires
        writable_members(ps),
    ensures
        tokenize(object_text(ps)) == Ok::<Seq<Lexeme>, LexerError>(object_lexemes(ps)),
{
    let s0 = object_text(ps);
    assert(s0[0] == '{');
    assert(s0.last() == '}');
    lemma_trimmed_unchanged(s0);
    lemma_pass_punct(s0);
    let s1 = s0.skip(1);
    assert(s1[0] == '\n');
    lemma_pass_punct(s1);
    let s2 = s1.skip(1);
    assert(s2 =~= members_text(ps) + seq!['}']);
    lemma_tokens_members(ps);
    let t2 = members_lexemes(ps) + seq![Lexeme::Punct('}')];
    assert(tokens_from(s1) == Ok::<Seq<Lexeme>, LexerError>(seq![Lexeme::Punct('\n')] + t2));
    assert(object_lexemes(ps) =~= seq![Lexeme::Punct('{')] + (seq![Lexeme::Punct('\n')] + t2));
}

/// The members after the first, once newlines are dropped: each is led by
/// a comma.
pub open spec fn comma_lexemes(ps: Seq<(Seq<char>, Scalar)>) -> Seq<Lexeme>
    decreases ps.len(),
{
    if ps.len() == 0 {
        seq![]
    } else {
        seq![
            Lexeme::Punct(','),
            Lexeme::Text(ps[0].0),
            Lexeme::Punct(':'),
            scalar_lexeme(ps[0].1),
        ] + comma_lexemes(ps.drop_first())
    }
}

/// The members once newlines are dropped.
pub open spec fn plain_members(ps: Seq<(Seq<char>, Scalar)>) -> Seq<Lexeme> {
    if ps.len() == 0 {
        seq![]
    } else {
        seq![Lexeme::Text(ps[0].0), Lexeme::Punct(':'), scalar_lexeme(ps[0].1)] + comma_lexemes(
            ps.drop_first(),
        )
    }
}

proof fn lemma_writable_rest(ps: Seq<(Seq<char>, Scalar)>)
    requires
        writable_members(ps),
        ps.len() > 0,
    ensures
        writable_members(ps.drop_first()),
        no_quote(ps[0].0),
        writable(ps[0].1),
{
    let rest = ps.drop_first();
    assert forall|i: int| 0 <= i < rest.len() implies writable_pair(#[trigger] rest[i]) by {
        assert(rest[i] == ps[i + 1]);
    }
    assert(writable_pair(ps[0]));
}

proof fn lemma_without_newlines_members(ps: Seq<(Seq<char>, Scalar)>)
    ensures
        without_newlines(members_lexemes(ps)) == plain_members(ps),
    decreases ps.len(),
{
    if ps.len() == 1 {
        let x = members_lexemes(ps);
        assert(x.drop_last() =~= plain_members(ps));
        assert(comma_lexemes(ps.drop_first()) =~= Seq::<Lexeme>::empty());
        reveal_with_fuel(without_newlines, 4);
        let y = x.drop_last();
        assert(y.drop_last() =~= seq![Lexeme::Text(ps[0].0), Lexeme::Punct(':')]);
        assert(y.drop_last().drop_last() =~= seq![Lexeme::Text(ps[0].0)]);
        assert(y.drop_last().drop_last().drop_last() =~= Seq::<Lexeme>::empty());
        assert(without_newlines(y) =~= y);
        assert(plain_members(ps) =~= seq![Lexeme::Text(ps[0].0), Lexeme::Punct(':'), scalar_lexeme(ps[0].1)] + Seq::<Lexeme>::empty());
    } else if ps.len() > 1 {
        let rest = ps.drop_first();
        let head = seq![
            Lexeme::Text(ps[0].0),
            Lexeme::Punct(':'),
            scalar_lexeme(ps[0].1),
            Lexeme::Punct(','),
            Lexeme::Punct('\n'),
        ];
        let kept = seq![Lexeme::Text(ps[0].0), Lexeme::Punct(':'), scalar_lexeme(ps[0].1), Lexeme::Punct(',')];
        lemma_without_newlines_concat(head, members_lexemes(rest));
        lemma_without_newlines_members(rest);
        assert(without_newlines(head) =~= kept) by {
            reveal_with_fuel(without_newlines, 6);
            assert(head.drop_last() =~= kept);
            assert(kept.drop_last() =~= seq![Lexeme::Text(ps[0].0), Lexeme::Punct(':'), scalar_lexeme(ps[0].1)]);
            assert(kept.drop_last().drop_last() =~= seq![Lexeme::Text(ps[0].0), Lexeme::Punct(':')]);
            assert(kept.drop_last().drop_last().drop_last() =~= seq![Lexeme::Text(ps[0].0)]);
            assert(kept.drop_last().drop_last().drop_last().drop_last() =~= Seq::<Lexeme>::empty());
        }
        assert(comma_lexemes(rest) =~= seq![
            Lexeme::Punct(','),
            Lexeme::Text(rest[0].0),
            Lexeme::Punct(':'),
            scalar_lexeme(rest[0].1),
        ] + comma_lexemes(rest.drop_first()));
        assert(kept + plain_members(rest) =~= plain_members(ps));
    } else {
        assert(without_newlines(members_lexemes(ps)) =~= Seq::<Lexeme>::empty());
    }
}

/// A token that the bracket validator passes over.
pub open spec fn bracket_free(l: Lexeme) -> bool {
    bracket_delta(l) == 0 && l != Lexeme::Punct('[')
}

proof fn lemma_brackets_skip(ts: Seq<Lexeme>, rest: Seq<Lexeme>, open: Seq<char>)
    requires
        forall|i: int| 0 <= i < ts.len() ==> bracket_free(#[trigger] ts[i]),
    ensures
        brackets_from(ts + rest, open) == brackets_from(rest, open),
    decreases ts.len(),
{
    if ts.len() == 0 {
        assert(ts + rest =~= rest);
    } else {
        assert(bracket_free(ts[0]));
        assert((ts + rest).drop_first() =~= ts.drop_first() + rest);
        assert((ts + rest)[0] == ts[0]);
        let t = ts.drop_first();
        assert forall|i: int| 0 <= i < t.len() implies bracket_free(#[trigger] t[i]) by {
            assert(t[i] == ts[i + 1]);
        }
        lemma_brackets_skip(t, rest, open);
    }
}

proof fn lemma_members_bracket_free(ps: Seq<(Seq<char>, Scalar)>)
    ensures
        forall|i: int| 0 <= i < members_lexemes(ps).len() ==> bracket_free(
            #[trigger] members_lexemes(ps)[i],
        ),
    decreases ps.len(),
{
    let ml = members_lexemes(ps);
    if ps.len() == 1 {
        assert forall|i: int| 0 <= i < ml.len() implies bracket_free(#[trigger] ml[i]) by {
            assert(ml =~= seq![
                Lexeme::Text(ps[0].0),
                Lexeme::Punct(':'),
                scalar_lexeme(ps[0].1),
                Lexeme::Punct('\n'),
            ]);
        }
    } else if ps.len() > 1 {
        let rest = ps.drop_first();
        lemma_members_bracket_free(rest);
        let head = seq![
            Lexeme::Text(ps[0].0),
            Lexeme::Punct(':'),
            scalar_lexeme(ps[0].1),
            Lexeme::Punct(','),
            Lexeme::Punct('\n'),
        ];
        assert(ml == head + members_lexemes(rest));
        assert forall|i: int| 0 <= i < ml.len() implies bracket_free(#[trigger] ml[i]) by {
            if i >= 5 {
                assert(ml[i] == members_lexemes(rest)[i - 5]);
            } else {
                assert(ml[i] == head[i]);
            }
        }
    }
}

/// Comma-led members followed by a closing brace read back as those members.
proof fn lemma_comma_members(qs: Seq<(Seq<char>, Scalar)>)
    requires
        writable_members(qs),
    ensures
        members_of(comma_lexemes(qs) + seq![Lexeme::Punct('}')]) == Ok::<
            Seq<(Seq<char>, Scalar)>,
            ParseError,
        >(qs),
    decreases qs.len(),
{
    let end = seq![Lexeme::Punct('}')];
    let s = comma_lexemes(qs) + end;
    if qs.len() == 0 {
        assert(s =~= end);
        assert(qs =~= Seq::<(Seq<char>, Scalar)>::empty());
    } else {
        lemma_writable_rest(qs);
        let rest = qs.drop_first();
        lemma_comma_members(rest);
        let k = qs[0].0;
        let v = qs[0].1;
        assert(s =~= seq![Lexeme::Punct(','), Lexeme::Text(k), Lexeme::Punct(':'), scalar_lexeme(v)]
            + (comma_lexemes(rest) + end));
        assert(s[0] == Lexeme::Punct(','));
        assert(s.drop_first()[0] == Lexeme::Text(k));
        assert(s.drop_first()[1] == Lexeme::Punct(':'));
        assert(s.drop_first()[2] == scalar_lexeme(v));
        assert(value_of(scalar_lexeme(v)) == Ok::<Scalar, ParseError>(v));
        assert(pair_scan(s) == Ok::<(Seq<char>, Scalar), ParseError>((k, v)));
        assert(pair_len(s) == 4);
        assert(s.skip(4) =~= comma_lexemes(rest) + end);
        assert(qs =~= seq![(k, v)] + rest);
    }
}

/// All the members followed by a closing brace read back as those members.
proof fn lemma_plain_members(ps: Seq<(Seq<char>, Scalar)>)
    requires
        writable_members(ps),
    ensures
        members_of(plain_members(ps) + seq![Lexeme::Punct('}')]) == Ok::<
            Seq<(Seq<char>, Scalar)>,
            ParseError,
        >(ps),
{
    let end = seq![Lexeme::Punct('}')];
    let s = plain_members(ps) + end;
    if ps.len() == 0 {
        assert(s =~= end);
        assert(ps =~= Seq::<(Seq<char>, Scalar)>::empty());
    } else {
        lemma_writable_rest(ps);
        let rest = ps.drop_first();
        lemma_comma_members(rest);
        let k = ps[0].0;
        let v = ps[0].1;
        assert(s =~= seq![Lexeme::Text(k), Lexeme::Punct(':'), scalar_lexeme(v)] + (comma_lexemes(
            rest,
        ) + end));
        assert(s[0] == Lexeme::Text(k));
        assert(s[1] == Lexeme::Punct(':'));
        assert(s[2] == scalar_lexeme(v));
        assert(value_of(scalar_lexeme(v)) == Ok::<Scalar, ParseError>(v));
        assert(pair_scan(s) == Ok::<(Seq<char>, Scalar), ParseError>((k, v)));
        assert(pair_len(s) == 3);
        assert(s.skip(3) =~= comma_lexemes(rest) + end);
        assert(ps =~= seq![(k, v)] + rest);
    }
}

proof fn lemma_parse(ps: Seq<(Seq<char>, Scalar)>)
    requires
        writable_members(ps),
    ensures
        parse_spec(object_lexemes(ps)) == Ok::<Seq<(Seq<char>, Scalar)>, ParseError>(ps),
{
    let ts = object_lexemes(ps);
    let ml = members_lexemes(ps);
    let end = seq![Lexeme::Punct('}')];
    let none = Seq::<char>::empty();
    let open = seq!['{'];
    // brackets
    lemma_members_bracket_free(ps);
    lemma_brackets_skip(ml, end, open);
    assert(brackets_from(Seq::<Lexeme>::empty(), none));
    assert(end.drop_first() =~= Seq::<Lexeme>::empty());
    assert(open.drop_last() =~= none);
    assert(brackets_from(end, open));
    assert(ts.drop_first().drop_first() =~= ml + end);
    assert(ts.drop_first()[0] == Lexeme::Punct('\n'));
    assert(brackets_from(ts.drop_first(), open));
    assert(none.push('{') =~= open);
    assert(ts[0] == Lexeme::Punct('{'));
    assert(brackets_valid(ts));
    // newlines
    let lead = seq![Lexeme::Punct('{'), Lexeme::Punct('\n')];
    lemma_without_newlines_concat(lead + ml, end);
    lemma_without_newlines_concat(lead, ml);
    lemma_without_newlines_members(ps);
    assert(without_newlines(lead) =~= seq![Lexeme::Punct('{')]) by {
        reveal_with_fuel(without_newlines, 3);
        assert(lead.drop_last() =~= seq![Lexeme::Punct('{')]);
        assert(lead.drop_last().drop_last() =~= Seq::<Lexeme>::empty());
    }
    assert(without_newlines(end) =~= end) by {
        assert(end.drop_last() =~= Seq::<Lexeme>::empty());
        assert(without_newlines(Seq::<Lexeme>::empty()) == Seq::<Lexeme>::empty());
        assert(Seq::<Lexeme>::empty().push(Lexeme::Punct('}')) =~= end);
    }
    assert(ts =~= lead + ml + end);
    let w = without_newlines(ts);
    assert(w =~= seq![Lexeme::Punct('{')] + plain_members(ps) + end);
    assert(w.skip(1) =~= plain_members(ps) + end);
    lemma_plain_members(ps);
}

/// Writing an object of string, number, boolean and null members as text
/// and then tokenizing and parsing that text gives back the same members,
/// keys, duplicates and order included.
pub proof fn lemma_round_trip(ps: Seq<(Seq<char>, Scalar)>)
    requires
        writable_members(ps),
    ensures
        tokenize(object_text(ps)) is Ok,
        parse_spec(tokenize(object_text(ps))->Ok_0) == Ok::<Seq<(Seq<char>, Scalar)>, ParseError>(
            ps,
        ),
{
    lemma_tokenize_object(ps);
    lemma_parse(ps);
}

} // verus!
