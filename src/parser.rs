use vstd::prelude::*;
use crate::grammar::Alternative;
use crate::grammar::AlternativeV;
use crate::grammar::Directive;
use crate::grammar::DirectiveV;
use crate::grammar::Grammar;
use crate::grammar::GrammarV;
use crate::grammar::Rule;
use crate::grammar::RuleV;
use crate::grammar::strings_view;
use crate::lexer::is_digit;
use crate::lexer::tokens_from;
use crate::lexer::tokens_of;
use crate::lexer::Lexer;
use crate::token::Spanned;
use crate::token::Token;
use crate::text::chars_of;
use crate::text::slice_is;
use crate::text::slice_string;
use crate::text::byte_offset;
use crate::text::byte_offsets;
use vstd::utf8::encode_utf8;

verus! {

/// Why a source text is not a grammar document. Positions are byte offsets.
#[derive(Clone, Copy, Debug, PartialEq, Eq, Structural)]
pub enum ParseError {
    /// A token of kind `expected` was needed; one of kind `found` stood at `start..end`.
    Unexpected { expected: Token, found: Token, start: usize, end: usize },
    /// A token of kind `expected` was needed, but no token was left.
    EndOfInput { expected: Token },
    /// The directive at `start..end` is not one that the grammar knows.
    UnknownDirective { start: usize, end: usize },
    /// The number after `%expect`, at `start..end`, does not fit in 64 bits.
    BadNumber { start: usize, end: usize },
    /// A directive other than `%prec`, at `start..end`, stands in an alternative.
    NotPrec { start: usize, end: usize },
    /// After an alternative, a token of kind `found` at `start..end` is neither `|` nor `;`.
    NotBarOrSemiColon { found: Token, start: usize, end: usize },
}

/// The kind of the `k`th token, if there is one.
pub open spec fn kind_at(ts: Seq<Spanned>, k: int) -> Option<Token> {
    if 0 <= k < ts.len() {
        Some(ts[k].data)
    } else {
        None
    }
}

/// The source text that a token covers.
pub open spec fn span_text(s: Seq<char>, t: Spanned) -> Seq<char> {
    s.subrange(t.start as int, t.end as int)
}

/// The `k`th token, where it is of kind `want`.
/// The byte offset of character position `i`.
pub open spec fn byte_at(s: Seq<char>, i: usize) -> usize {
    byte_offset(s, i as int) as usize
}

pub open spec fn expect_at(s: Seq<char>, ts: Seq<Spanned>, k: int, want: Token) -> Result<
    Spanned,
    ParseError,
> {
    if k < 0 || k >= ts.len() {
        Err(ParseError::EndOfInput { expected: want })
    } else if ts[k].data != want {
        Err(
            ParseError::Unexpected {
                expected: want,
                found: ts[k].data,
                start: byte_at(s, ts[k].start),
                end: byte_at(s, ts[k].end),
            },
        )
    } else {
        Ok(ts[k])
    }
}

/// Every character is a decimal digit.
pub open spec fn all_digits(d: Seq<char>) -> bool {
    forall|i: int| 0 <= i < d.len() ==> is_digit(#[trigger] d[i])
}

/// The value of a run of decimal digits.
pub open spec fn decimal_value(d: Seq<char>) -> int
    decreases d.len(),
{
    if d.len() == 0 {
        0
    } else {
        decimal_value(d.drop_last()) * 10 + (d.last() as u32 - '0' as u32)
    }
}

/// The rule names (identifiers and quoted characters) from token `k` on, added
/// to `acc`, and the position of the first token that is neither.
pub open spec fn names_from(s: Seq<char>, ts: Seq<Spanned>, k: int, acc: Seq<Seq<char>>) -> (
    Seq<Seq<char>>,
    int,
)
    decreases ts.len() - k,
{
    if 0 <= k < ts.len() && (ts[k].data == Token::Ident || ts[k].data == Token::Char) {
        names_from(s, ts, k + 1, acc.push(span_text(s, ts[k])))
    } else {
        (acc, k)
    }
}

/// The directive whose name is the `k`th token, and the position after it.
pub open spec fn directive_at(s: Seq<char>, ts: Seq<Spanned>, k: int) -> Result<
    (DirectiveV, int),
    ParseError,
> {
    match expect_at(s, ts, k, Token::Directive) {
        Err(e) => Err(e),
        Ok(d) => {
            let name = span_text(s, d);
            if name == "%pure-parser"@ {
                Ok((DirectiveV::PureParser, k + 1))
            } else if name == "%expect"@ {
                match expect_at(s, ts, k + 1, Token::Number) {
                    Err(e) => Err(e),
                    Ok(t) => {
                        let v = span_text(s, t);
                        if all_digits(v) && decimal_value(v) <= u64::MAX {
                            Ok((DirectiveV::Expect { number: decimal_value(v) as u64 }, k + 2))
                        } else {
                            Err(ParseError::BadNumber { start: byte_at(s, t.start), end: byte_at(s, t.end) })
                        }
                    },
                }
            } else if name == "%name-prefix"@ {
                match expect_at(s, ts, k + 1, Token::Equal) {
                    Err(e) => Err(e),
                    Ok(_) => match expect_at(s, ts, k + 2, Token::String) {
                        Err(e) => Err(e),
                        Ok(t) => Ok((DirectiveV::NamePrefix { prefix: span_text(s, t) }, k + 3)),
                    },
                }
            } else if name == "%locations"@ {
                Ok((DirectiveV::Locations, k + 1))
            } else if name == "%parse-param"@ || name == "%lex-param"@ || name == "%union"@ {
                match expect_at(s, ts, k + 1, Token::Code) {
                    Err(e) => Err(e),
                    Ok(t) => {
                        let code = span_text(s, t);
                        if name == "%parse-param"@ {
                            Ok((DirectiveV::ParseParam { params: code }, k + 2))
                        } else if name == "%lex-param"@ {
                            Ok((DirectiveV::LexParam { params: code }, k + 2))
                        } else {
                            Ok((DirectiveV::Union { code }, k + 2))
                        }
                    },
                }
            } else if name == "%type"@ {
                match expect_at(s, ts, k + 1, Token::Type) {
                    Err(e) => Err(e),
                    Ok(t) => {
                        let (names, e) = names_from(s, ts, k + 2, Seq::empty());
                        Ok((DirectiveV::Type { value_type: span_text(s, t), rule_names: names }, e))
                    },
                }
            } else if name == "%token"@ {
                if kind_at(ts, k + 1) == Some(Token::Type) {
                    let (names, e) = names_from(s, ts, k + 2, Seq::empty());
                    Ok(
                        (
                            DirectiveV::Token {
                                token_name: Some(span_text(s, ts[k + 1])),
                                rule_names: names,
                            },
                            e,
                        ),
                    )
                } else {
                    let (names, e) = names_from(s, ts, k + 1, Seq::empty());
                    Ok((DirectiveV::Token { token_name: None, rule_names: names }, e))
                }
            } else if name == "%left"@ || name == "%right"@ || name == "%nonassoc"@ {
                let (names, e) = names_from(s, ts, k + 1, Seq::empty());
                if name == "%left"@ {
                    Ok((DirectiveV::Left { rule_names: names }, e))
                } else if name == "%right"@ {
                    Ok((DirectiveV::Right { rule_names: names }, e))
                } else {
                    Ok((DirectiveV::NonAssoc { rule_names: names }, e))
                }
            } else {
                Err(ParseError::UnknownDirective { start: byte_at(s, d.start), end: byte_at(s, d.end) })
            }
        },
    }
}

/// The text of a prologue token, between its `%{` and its closing `}`.
pub open spec fn prologue_text(s: Seq<char>, t: Spanned) -> Seq<char> {
    s.subrange(t.start + 2, t.end - 1)
}

/// The head from token `k` on: directives and prologues, added to `ds` and
/// `ps`, until a token that starts neither.
pub open spec fn head_from(
    s: Seq<char>,
    ts: Seq<Spanned>,
    k: int,
    ds: Seq<DirectiveV>,
    ps: Seq<Seq<char>>,
) -> Result<(Seq<DirectiveV>, Seq<Seq<char>>, int), ParseError>
    decreases ts.len() - k,
{
    if kind_at(ts, k) == Some(Token::Directive) {
        match directive_at(s, ts, k) {
            Err(e) => Err(e),
            Ok((d, e)) => {
                proof {
                    lemma_directive_advances(s, ts, k);
                }
                head_from(s, ts, e, ds.push(d), ps)
            },
        }
    } else if kind_at(ts, k) == Some(Token::Prologue) {
        head_from(s, ts, k + 1, ds, ps.push(prologue_text(s, ts[k])))
    } else {
        Ok((ds, ps, k))
    }
}

/// The alternative that starts at token `k`, and the position after it.
pub open spec fn alternative_at(s: Seq<char>, ts: Seq<Spanned>, k: int) -> Result<
    (AlternativeV, int),
    ParseError,
> {
    let (elements, k1) = names_from(s, ts, k, Seq::empty());
    let prec: Result<(Option<Seq<char>>, int), ParseError> = if kind_at(ts, k1) == Some(
        Token::Directive,
    ) {
        if span_text(s, ts[k1]) != "%prec"@ {
            Err(ParseError::NotPrec { start: byte_at(s, ts[k1].start), end: byte_at(s, ts[k1].end) })
        } else {
            match expect_at(s, ts, k1 + 1, Token::Ident) {
                Err(e) => Err(e),
                Ok(t) => Ok((Some(span_text(s, t)), k1 + 2)),
            }
        }
    } else {
        Ok((None, k1))
    };
    match prec {
        Err(e) => Err(e),
        Ok((precedence, k2)) => {
            if kind_at(ts, k2) == Some(Token::Code) {
                Ok(
                    (
                        AlternativeV { elements, precedence, action: Some(span_text(s, ts[k2])) },
                        k2 + 1,
                    ),
                )
            } else {
                Ok((AlternativeV { elements, precedence, action: None }, k2))
            }
        },
    }
}

/// Alternatives from token `k` on, added to `acc`, up to and including the `;`.
pub open spec fn alternatives_from(
    s: Seq<char>,
    ts: Seq<Spanned>,
    k: int,
    acc: Seq<AlternativeV>,
) -> Result<(Seq<AlternativeV>, int), ParseError>
    decreases ts.len() - k,
{
    match alternative_at(s, ts, k) {
        Err(e) => Err(e),
        Ok((a, k1)) => {
            match kind_at(ts, k1) {
                Some(Token::Bar) => {
                    proof {
                        lemma_alternative_advances(s, ts, k);
                    }
                    alternatives_from(s, ts, k1 + 1, acc.push(a))
                },
                Some(Token::SemiColon) => Ok((acc.push(a), k1 + 1)),
                Some(t) => Err(
                    ParseError::NotBarOrSemiColon {
                        found: t,
                        start: byte_at(s, ts[k1].start),
                        end: byte_at(s, ts[k1].end),
                    },
                ),
                None => Err(ParseError::EndOfInput { expected: Token::SemiColon }),
            }
        },
    }
}

/// The rule that starts at token `k`, and the position after its `;`.
pub open spec fn rule_at(s: Seq<char>, ts: Seq<Spanned>, k: int) -> Result<(RuleV, int), ParseError> {
    match expect_at(s, ts, k, Token::Ident) {
        Err(e) => Err(e),
        Ok(n) => match expect_at(s, ts, k + 1, Token::Colon) {
            Err(e) => Err(e),
            Ok(_) => match alternatives_from(s, ts, k + 2, Seq::empty()) {
                Err(e) => Err(e),
                Ok((alts, e)) => Ok((RuleV { name: span_text(s, n), alternatives: alts }, e)),
            },
        },
    }
}

/// Rules from token `k` on, added to `acc`, while the next token is an identifier.
pub open spec fn rules_from(s: Seq<char>, ts: Seq<Spanned>, k: int, acc: Seq<RuleV>) -> Result<
    (Seq<RuleV>, int),
    ParseError,
>
    decreases ts.len() - k,
{
    if kind_at(ts, k) == Some(Token::Ident) {
        match rule_at(s, ts, k) {
            Err(e) => Err(e),
            Ok((r, e)) => {
                proof {
                    lemma_rule_advances(s, ts, k);
                }
                rules_from(s, ts, e, acc.push(r))
            },
        }
    } else {
        Ok((acc, k))
    }
}

/// The text of an epilogue token after its `%%`.
pub open spec fn epilogue_text(s: Seq<char>, t: Spanned) -> Seq<char> {
    s.subrange(t.start + 2, t.end as int)
}

/// The document that the tokens `ts` of source text `s` spell from token `k`
/// on: a head, `%%`, one rule or more, and the epilogue.
pub open spec fn grammar_from(s: Seq<char>, ts: Seq<Spanned>, k: int) -> Result<GrammarV, ParseError> {
    match head_from(s, ts, k, Seq::empty(), Seq::empty()) {
        Err(e) => Err(e),
        Ok((ds, ps, k)) => match expect_at(s, ts, k, Token::PercentPercent) {
            Err(e) => Err(e),
            Ok(_) => match rule_at(s, ts, k + 1) {
                Err(e) => Err(e),
                Ok((r, k1)) => match rules_from(s, ts, k1, seq![r]) {
                    Err(e) => Err(e),
                    Ok((rules, k2)) => match expect_at(s, ts, k2, Token::Epilogue) {
                        Err(e) => Err(e),
                        Ok(t) => Ok(
                            GrammarV {
                                directives: ds,
                                prologues: ps,
                                rules,
                                epilogue: epilogue_text(s, t),
                            },
                        ),
                    },
                },
            },
        },
    }
}

/// The tokens of a text as [`Spanned`] values.
pub open spec fn spanned_of(ts: Seq<(Token, int, int)>) -> Seq<Spanned> {
    ts.map_values(|t: (Token, int, int)| Spanned { data: t.0, start: t.1 as usize, end: t.2 as usize })
}

/// The document that a source text holds, or why it holds none.
pub open spec fn document_of(s: Seq<char>) -> Result<GrammarV, ParseError> {
    grammar_from(s, spanned_of(tokens_of(s)), 0)
}

/// The spans of `ts` lie in `s`, and prologue and epilogue tokens are long
/// enough to hold their delimiters.
pub open spec fn spans_ok(s: Seq<char>, ts: Seq<Spanned>) -> bool {
    forall|k: int|
        0 <= k < ts.len() ==> {
            &&& #[trigger] ts[k].start < ts[k].end <= s.len()
            &&& ts[k].data == Token::Prologue ==> ts[k].start + 4 <= ts[k].end
            &&& ts[k].data == Token::Epilogue ==> ts[k].start + 2 <= ts[k].end
        }
}

/// Reading more digits never lowers the value.
pub proof fn lemma_decimal_monotone(d: Seq<char>, i: int, j: int)
    requires
        all_digits(d),
        0 <= i <= j <= d.len(),
    ensures
        decimal_value(d.take(i)) <= decimal_value(d.take(j)),
    decreases j - i,
{
    if i < j {
        lemma_decimal_monotone(d, i, j - 1);
        lemma_decimal_nonneg(d, j - 1);
        assert(d.take(j).drop_last() == d.take(j - 1));
        assert(d.take(j).last() == d[j - 1]);
        assert(is_digit(d[j - 1]));
    }
}

/// The value of digits is never negative.
pub proof fn lemma_decimal_nonneg(d: Seq<char>, i: int)
    requires
        all_digits(d),
        0 <= i <= d.len(),
    ensures
        decimal_value(d.take(i)) >= 0,
    decreases i,
{
    if i > 0 {
        lemma_decimal_nonneg(d, i - 1);
        assert(d.take(i).drop_last() == d.take(i - 1));
        assert(d.take(i).last() == d[i - 1]);
        assert(is_digit(d[i - 1]));
    }
}

/// The value of the digits `chars[start..end]`, where they are all digits and
/// the value fits in 64 bits.
fn decimal_of(chars: &Vec<char>, start: usize, end: usize) -> (r: Option<u64>)
    requires
        start <= end <= chars.len(),
    ensures
        ({
            let d = chars@.subrange(start as int, end as int);
            match r {
                Some(v) => all_digits(d) && decimal_value(d) <= u64::MAX && v == decimal_value(d),
                None => !(all_digits(d) && decimal_value(d) <= u64::MAX),
            }
        }),
{
    let ghost d = chars@.subrange(start as int, end as int);
    let mut v: u64 = 0;
    let mut i = start;
    while i < end
        invariant
            start <= i <= end <= chars.len(),
            d == chars@.subrange(start as int, end as int),
            all_digits(d.take(i - start)),
            v == decimal_value(d.take(i - start)),
        decreases end - i,
    {
        let c = chars[i];
        let u = c as u32;
        assert(d[i - start] == c);
        if u < '0' as u32 || u > '9' as u32 {
            assert(!is_digit(d[i - start]));
            return None;
        }
        assert(d.take(i - start + 1).drop_last() == d.take(i - start));
        assert(d.take(i - start + 1).last() == c);
        assert forall|j: int| 0 <= j < d.take(i - start + 1).len() implies is_digit(
            #[trigger] d.take(i - start + 1)[j],
        ) by {
            if j < i - start {
                assert(d.take(i - start + 1)[j] == d.take(i - start)[j]);
            }
        }
        let digit = (u - '0' as u32) as u64;
        let next = match v.checked_mul(10) {
            Some(m) => m.checked_add(digit),
            None => None,
        };
        match next {
            Some(n) => {
                v = n;
            },
            None => {
                proof {
                    if all_digits(d) {
                        lemma_decimal_monotone(d, i - start + 1, d.len() as int);
                        assert(d.take(d.len() as int) == d);
                    }
                }
                return None;
            },
        }
        i = i + 1;
    }
    assert(d.take(end - start) == d);
    Some(v)
}

/// Reading rule names never moves back, nor past the last token.
pub proof fn lemma_names_advance(s: Seq<char>, ts: Seq<Spanned>, k: int, acc: Seq<Seq<char>>)
    requires
        0 <= k,
    ensures
        k <= names_from(s, ts, k, acc).1,
        k <= ts.len() ==> names_from(s, ts, k, acc).1 <= ts.len(),
    decreases ts.len() - k,
{
    if 0 <= k < ts.len() && (ts[k].data == Token::Ident || ts[k].data == Token::Char) {
        lemma_names_advance(s, ts, k + 1, acc.push(span_text(s, ts[k])));
    }
}

/// A directive takes at least one token.
pub proof fn lemma_directive_advances(s: Seq<char>, ts: Seq<Spanned>, k: int)
    requires
        0 <= k,
    ensures
        directive_at(s, ts, k) matches Ok((_, e)) ==> k < e <= ts.len(),
{
    if k + 1 <= ts.len() {
        lemma_names_advance(s, ts, k + 1, Seq::empty());
    }
    if k + 2 <= ts.len() {
        lemma_names_advance(s, ts, k + 2, Seq::empty());
    }
}

/// An alternative never moves back, nor past the last token.
pub proof fn lemma_alternative_advances(s: Seq<char>, ts: Seq<Spanned>, k: int)
    requires
        0 <= k,
    ensures
        alternative_at(s, ts, k) matches Ok((_, e)) ==> k <= e && (k <= ts.len() ==> e
            <= ts.len()),
{
    lemma_names_advance(s, ts, k, Seq::empty());
}

/// The alternatives of a rule take at least one token.
pub proof fn lemma_alternatives_advance(
    s: Seq<char>,
    ts: Seq<Spanned>,
    k: int,
    acc: Seq<AlternativeV>,
)
    requires
        0 <= k,
    ensures
        alternatives_from(s, ts, k, acc) matches Ok((_, e)) ==> k < e <= ts.len(),
    decreases ts.len() - k,
{
    lemma_alternative_advances(s, ts, k);
    if let Ok((a, k1)) = alternative_at(s, ts, k) {
        if kind_at(ts, k1) == Some(Token::Bar) {
            lemma_alternatives_advance(s, ts, k1 + 1, acc.push(a));
        }
    }
}

/// A rule takes at least one token.
pub proof fn lemma_rule_advances(s: Seq<char>, ts: Seq<Spanned>, k: int)
    requires
        0 <= k,
    ensures
        rule_at(s, ts, k) matches Ok((_, e)) ==> k < e <= ts.len(),
{
    lemma_alternatives_advance(s, ts, k + 2, Seq::empty());
}

/// Two token streams whose tokens have, one for one, the same kinds and the
/// same texts.
pub open spec fn same_tokens(s1: Seq<char>, ts1: Seq<Spanned>, s2: Seq<char>, ts2: Seq<Spanned>) -> bool {
    &&& spans_ok(s1, ts1)
    &&& spans_ok(s2, ts2)
    &&& ts1.len() == ts2.len()
    &&& forall|k: int|
        0 <= k < ts1.len() ==> (#[trigger] ts1[k]).data == ts2[k].data && span_text(s1, ts1[k])
            == span_text(s2, ts2[k])
}

/// Both results succeed with the same value, or both fail.
pub open spec fn agree<T>(a: Result<T, ParseError>, b: Result<T, ParseError>) -> bool {
    match (a, b) {
        (Ok(x), Ok(y)) => x == y,
        (Err(_), Err(_)) => true,
        _ => false,
    }
}

proof fn lemma_names_same(
    s1: Seq<char>,
    ts1: Seq<Spanned>,
    s2: Seq<char>,
    ts2: Seq<Spanned>,
    k: int,
    acc: Seq<Seq<char>>,
)
    requires
        same_tokens(s1, ts1, s2, ts2),
    ensures
        names_from(s1, ts1, k, acc) == names_from(s2, ts2, k, acc),
    decreases ts1.len() - k,
{
    if 0 <= k < ts1.len() {
        assert(ts1[k].data == ts2[k].data);
        if ts1[k].data == Token::Ident || ts1[k].data == Token::Char {
            lemma_names_same(s1, ts1, s2, ts2, k + 1, acc.push(span_text(s1, ts1[k])));
        }
    }
}

proof fn lemma_directive_same(s1: Seq<char>, ts1: Seq<Spanned>, s2: Seq<char>, ts2: Seq<Spanned>, k: int)
    requires
        same_tokens(s1, ts1, s2, ts2),
    ensures
        agree(directive_at(s1, ts1, k), directive_at(s2, ts2, k)),
{
    lemma_names_same(s1, ts1, s2, ts2, k + 1, Seq::empty());
    lemma_names_same(s1, ts1, s2, ts2, k + 2, Seq::empty());
    if 0 <= k < ts1.len() {
        assert(ts1[k].data == ts2[k].data);
    }
    if 0 <= k + 1 < ts1.len() {
        assert(ts1[k + 1].data == ts2[k + 1].data);
    }
    if 0 <= k + 2 < ts1.len() {
        assert(ts1[k + 2].data == ts2[k + 2].data);
    }
}

proof fn lemma_delimited_text(s: Seq<char>, ts: Seq<Spanned>, k: int)
    requires
        spans_ok(s, ts),
        0 <= k < ts.len(),
    ensures
        ts[k].data == Token::Prologue ==> prologue_text(s, ts[k]) == span_text(s, ts[k]).subrange(
            2,
            span_text(s, ts[k]).len() - 1,
        ),
        ts[k].data == Token::Epilogue ==> epilogue_text(s, ts[k]) == span_text(s, ts[k]).subrange(
            2,
            span_text(s, ts[k]).len() as int,
        ),
{
    let t = ts[k];
    assert(t.start < t.end <= s.len());
    if t.data == Token::Prologue {
        assert(prologue_text(s, t) =~= span_text(s, t).subrange(2, span_text(s, t).len() - 1));
    }
    if t.data == Token::Epilogue {
        assert(epilogue_text(s, t) =~= span_text(s, t).subrange(2, span_text(s, t).len() as int));
    }
}

proof fn lemma_head_same(
    s1: Seq<char>,
    ts1: Seq<Spanned>,
    s2: Seq<char>,
    ts2: Seq<Spanned>,
    k: int,
    ds: Seq<DirectiveV>,
    ps: Seq<Seq<char>>,
)
    requires
        same_tokens(s1, ts1, s2, ts2),
        0 <= k,
    ensures
        agree(head_from(s1, ts1, k, ds, ps), head_from(s2, ts2, k, ds, ps)),
    decreases ts1.len() - k,
{
    if k < ts1.len() {
        assert(ts1[k].data == ts2[k].data);
        if ts1[k].data == Token::Directive {
            lemma_directive_same(s1, ts1, s2, ts2, k);
            lemma_directive_advances(s1, ts1, k);
            if let Ok((d, e)) = directive_at(s1, ts1, k) {
                lemma_head_same(s1, ts1, s2, ts2, e, ds.push(d), ps);
            }
        } else if ts1[k].data == Token::Prologue {
            lemma_delimited_text(s1, ts1, k);
            lemma_delimited_text(s2, ts2, k);
            lemma_head_same(s1, ts1, s2, ts2, k + 1, ds, ps.push(prologue_text(s1, ts1[k])));
        }
    }
}

proof fn lemma_alternative_same(
    s1: Seq<char>,
    ts1: Seq<Spanned>,
    s2: Seq<char>,
    ts2: Seq<Spanned>,
    k: int,
)
    requires
        same_tokens(s1, ts1, s2, ts2),
        0 <= k,
    ensures
        agree(alternative_at(s1, ts1, k), alternative_at(s2, ts2, k)),
{
    lemma_names_same(s1, ts1, s2, ts2, k, Seq::empty());
    let k1 = names_from(s1, ts1, k, Seq::empty()).1;
    lemma_names_advance(s1, ts1, k, Seq::empty());
    if k1 < ts1.len() {
        assert(ts1[k1].data == ts2[k1].data);
    }
    if k1 + 1 < ts1.len() {
        assert(ts1[k1 + 1].data == ts2[k1 + 1].data);
    }
    if k1 + 2 < ts1.len() {
        assert(ts1[k1 + 2].data == ts2[k1 + 2].data);
    }
}

proof fn lemma_alternatives_same(
    s1: Seq<char>,
    ts1: Seq<Spanned>,
    s2: Seq<char>,
    ts2: Seq<Spanned>,
    k: int,
    acc: Seq<AlternativeV>,
)
    requires
        same_tokens(s1, ts1, s2, ts2),
        0 <= k,
    ensures
        agree(alternatives_from(s1, ts1, k, acc), alternatives_from(s2, ts2, k, acc)),
    decreases ts1.len() - k,
{
    lemma_alternative_same(s1, ts1, s2, ts2, k);
    lemma_alternative_advances(s1, ts1, k);
    if let Ok((a, k1)) = alternative_at(s1, ts1, k) {
        if 0 <= k1 < ts1.len() {
            assert(ts1[k1].data == ts2[k1].data);
            if ts1[k1].data == Token::Bar {
                lemma_alternatives_same(s1, ts1, s2, ts2, k1 + 1, acc.push(a));
            }
        }
    }
}

proof fn lemma_rule_same(s1: Seq<char>, ts1: Seq<Spanned>, s2: Seq<char>, ts2: Seq<Spanned>, k: int)
    requires
        same_tokens(s1, ts1, s2, ts2),
        0 <= k,
    ensures
        agree(rule_at(s1, ts1, k), rule_at(s2, ts2, k)),
{
    if k < ts1.len() {
        assert(ts1[k].data == ts2[k].data);
    }
    if k + 1 < ts1.len() {
        assert(ts1[k + 1].data == ts2[k + 1].data);
    }
    lemma_alternatives_same(s1, ts1, s2, ts2, k + 2, Seq::empty());
}

proof fn lemma_rules_same(
    s1: Seq<char>,
    ts1: Seq<Spanned>,
    s2: Seq<char>,
    ts2: Seq<Spanned>,
    k: int,
    acc: Seq<RuleV>,
)
    requires
        same_tokens(s1, ts1, s2, ts2),
        0 <= k,
    ensures
        agree(rules_from(s1, ts1, k, acc), rules_from(s2, ts2, k, acc)),
    decreases ts1.len() - k,
{
    if k < ts1.len() {
        assert(ts1[k].data == ts2[k].data);
        if ts1[k].data == Token::Ident {
            lemma_rule_same(s1, ts1, s2, ts2, k);
            lemma_rule_advances(s1, ts1, k);
            if let Ok((r, e)) = rule_at(s1, ts1, k) {
                lemma_rules_same(s1, ts1, s2, ts2, e, acc.push(r));
            }
        }
    }
}

/// Reading the head never moves back.
pub proof fn lemma_head_advances(
    s: Seq<char>,
    ts: Seq<Spanned>,
    k: int,
    ds: Seq<DirectiveV>,
    ps: Seq<Seq<char>>,
)
    requires
        0 <= k,
    ensures
        head_from(s, ts, k, ds, ps) matches Ok((_, _, e)) ==> k <= e,
    decreases ts.len() - k,
{
    if kind_at(ts, k) == Some(Token::Directive) {
        lemma_directive_advances(s, ts, k);
        if let Ok((d, e)) = directive_at(s, ts, k) {
            lemma_head_advances(s, ts, e, ds.push(d), ps);
        }
    } else if kind_at(ts, k) == Some(Token::Prologue) {
        lemma_head_advances(s, ts, k + 1, ds, ps.push(prologue_text(s, ts[k])));
    }
}

/// The document depends on the tokens' kinds and texts alone, not on where
/// they stand: two token streams that agree on both give the same document,
/// or both give none.
pub proof fn lemma_document_depends_on_token_text(
    s1: Seq<char>,
    ts1: Seq<Spanned>,
    s2: Seq<char>,
    ts2: Seq<Spanned>,
)
    requires
        same_tokens(s1, ts1, s2, ts2),
    ensures
        agree(grammar_from(s1, ts1, 0), grammar_from(s2, ts2, 0)),
{
    lemma_head_same(s1, ts1, s2, ts2, 0, Seq::empty(), Seq::empty());
    lemma_head_advances(s1, ts1, 0, Seq::empty(), Seq::empty());
    if let Ok((ds, ps, k)) = head_from(s1, ts1, 0, Seq::empty(), Seq::empty()) {
        if 0 <= k < ts1.len() {
            assert(ts1[k].data == ts2[k].data);
        }
        lemma_rule_same(s1, ts1, s2, ts2, k + 1);
        lemma_rule_advances(s1, ts1, k + 1);
        if let Ok((r, k1)) = rule_at(s1, ts1, k + 1) {
            lemma_rules_same(s1, ts1, s2, ts2, k1, seq![r]);
            if let Ok((rules, k2)) = rules_from(s1, ts1, k1, seq![r]) {
                if 0 <= k2 < ts1.len() {
                    assert(ts1[k2].data == ts2[k2].data);
                    lemma_delimited_text(s1, ts1, k2);
                    lemma_delimited_text(s2, ts2, k2);
                }
            }
        }
    }
}

/// A recursive-descent parser over the tokens of one source text.
pub struct Parser {
    input: Vec<char>,
    /// The byte offset of each character position, and of the end.
    offsets: Vec<usize>,
    /// The tokens, with spans in character positions.
    tokens: Vec<Spanned>,
    pos: usize,
}

impl Parser {
    /// The source text.
    pub closed spec fn text(&self) -> Seq<char> {
        self.input@
    }

    /// The tokens of the source text.
    pub closed spec fn tokens(&self) -> Seq<Spanned> {
        self.tokens@
    }

    /// The index of the next token to read.
    pub closed spec fn position(&self) -> int {
        self.pos as int
    }

    /// The position lies within the tokens, whose spans lie in the text.
    pub closed spec fn wf(&self) -> bool {
        &&& self.pos <= self.tokens.len()
        &&& spans_ok(self.input@, self.tokens@)
        &&& self.offsets.len() == self.input.len() + 1
        &&& forall|i: int| 0 <= i <= self.input.len() ==> self.offsets@[i] == byte_offset(self.input@, i)
    }

    /// Whether `new` is `old` read further along the same tokens.
    pub open spec fn same_source(old: &Parser, new: &Parser) -> bool {
        &&& new.wf()
        &&& new.text() == old.text()
        &&& new.tokens() == old.tokens()
    }

    /// A parser over the tokens that `lexer`, scanning `input`, has left.
    pub fn new(input: &str, lexer: Lexer) -> (r: Parser)
        requires
            encode_utf8(input@).len() <= usize::MAX,
            lexer.wf(),
            lexer.text() == input@,
        ensures
            r.wf(),
            r.text() == input@,
            r.tokens().map_values(|t: Spanned| t@) == tokens_from(
                input@,
                lexer.position(),
                lexer.separator_seen(),
            ),
            r.position() == 0,
    {
        let mut lexer = lexer;
        let ghost ts = tokens_from(input@, lexer.position(), lexer.separator_seen());
        proof {
            crate::lexer::lemma_tokens_from_cover(input@, lexer.position(), lexer.separator_seen());
        }
        let ghost p0 = lexer.position();
        let tokens = lexer.remaining_spans();
        let ghost tv = tokens@.map_values(|t: Spanned| t@);
        assert(tv == ts);
        assert forall|k: int| 0 <= k < tokens@.len() implies #[trigger] tokens@[k].start
            < tokens@[k].end <= input@.len() && (tokens@[k].data == Token::Prologue
            ==> tokens@[k].start + 4 <= tokens@[k].end) && (tokens@[k].data == Token::Epilogue
            ==> tokens@[k].start + 2 <= tokens@[k].end) by {
            assert(tv[k] == tokens@[k]@);
            assert(crate::lexer::covers(input@, p0, ts));
            assert(tv.len() == tokens@.len());
            let tk = ts[k];
            assert(tk.1 < tk.2);
            assert(tk.2 <= input@.len());
            assert(ts[k].0 == Token::Prologue ==> ts[k].1 + 4 <= ts[k].2);
            assert(ts[k].0 == Token::Epilogue ==> ts[k].1 + 2 <= ts[k].2);
        }
        let input_chars = chars_of(input);
        let offsets = byte_offsets(input, &input_chars);
        Parser { input: input_chars, offsets, tokens, pos: 0 }
    }

    fn byte_at(&self, i: usize) -> (r: usize)
        requires
            self.wf(),
            i <= self.input.len(),
        ensures
            r == byte_at(self.input@, i),
    {
        self.offsets[i]
    }

    fn peek(&self) -> (r: Option<Token>)
        ensures
            r == kind_at(self.tokens@, self.pos as int),
    {
        if self.pos < self.tokens.len() {
            Some(self.tokens[self.pos].data)
        } else {
            None
        }
    }

    fn expect(&mut self, want: Token) -> (r: Result<Spanned, ParseError>)
        requires
            old(self).wf(),
        ensures
            Self::same_source(old(self), final(self)),
            r == expect_at(old(self).text(), old(self).tokens(), old(self).position(), want),
            final(self).position() == if r is Ok {
                old(self).position() + 1
            } else {
                old(self).position()
            },
    {
        if self.pos >= self.tokens.len() {
            return Err(ParseError::EndOfInput { expected: want });
        }
        let t = self.tokens[self.pos];
        if t.data != want {
            return Err(
                ParseError::Unexpected {
                    expected: want,
                    found: t.data,
                    start: self.byte_at(t.start),
                    end: self.byte_at(t.end),
                },
            );
        }
        self.pos = self.pos + 1;
        Ok(t)
    }

    fn text_of(&self, t: Spanned) -> (r: String)
        requires
            self.wf(),
            exists|k: int| 0 <= k < self.tokens@.len() && self.tokens@[k] == t,
        ensures
            r@ == span_text(self.input@, t),
    {
        let ghost k = choose|k: int| 0 <= k < self.tokens@.len() && self.tokens@[k] == t;
        assert(self.tokens@[k].start < self.tokens@[k].end <= self.input@.len());
        slice_string(&self.input, t.start, t.end)
    }

    fn text_is(&self, t: Spanned, lit: &str) -> (r: bool)
        requires
            self.wf(),
            exists|k: int| 0 <= k < self.tokens@.len() && self.tokens@[k] == t,
        ensures
            r == (span_text(self.input@, t) == lit@),
    {
        let ghost k = choose|k: int| 0 <= k < self.tokens@.len() && self.tokens@[k] == t;
        assert(self.tokens@[k].start < self.tokens@[k].end <= self.input@.len());
        slice_is(&self.input, t.start, t.end, lit)
    }

    /// Reads rule names, identifiers and quoted characters, while there are any.
    fn rule_names(&mut self) -> (r: Vec<String>)
        requires
            old(self).wf(),
        ensures
            Self::same_source(old(self), final(self)),
            (strings_view(r@), final(self).position()) == names_from(
                old(self).text(),
                old(self).tokens(),
                old(self).position(),
                Seq::empty(),
            ),
    {
        let mut names: Vec<String> = Vec::new();
        assert(strings_view(names@) =~= Seq::<Seq<char>>::empty());
        loop
            invariant
                Self::same_source(old(self), self),
                names_from(self.text(), self.tokens(), self.position(), strings_view(names@))
                    == names_from(
                    old(self).text(),
                    old(self).tokens(),
                    old(self).position(),
                    Seq::empty(),
                ),
            decreases self.tokens.len() - self.pos,
        {
            match self.peek() {
                Some(Token::Ident) | Some(Token::Char) => {
                    let t = self.tokens[self.pos];
                    assert(self.tokens@[self.pos as int] == t);
                    let text = self.text_of(t);
                    self.pos = self.pos + 1;
                    let ghost before = strings_view(names@);
                    names.push(text);
                    assert(strings_view(names@) =~= before.push(text@));
                },
                _ => {
                    return names;
                },
            }
        }
    }

    fn parse_directive(&mut self) -> (r: Result<Directive, ParseError>)
        requires
            old(self).wf(),
        ensures
            Self::same_source(old(self), final(self)),
            match directive_at(old(self).text(), old(self).tokens(), old(self).position()) {
                Ok((d, e)) => r matches Ok(x) && x@ == d && final(self).position() == e,
                Err(e) => r == Err::<Directive, ParseError>(e),
            },
    {
        let d = match self.expect(Token::Directive) {
            Ok(d) => d,
            Err(e) => {
                return Err(e);
            },
        };
        assert(self.tokens@[self.pos - 1] == d);
        if self.text_is(d, "%pure-parser") {
            Ok(Directive::PureParser)
        } else if self.text_is(d, "%expect") {
            let t = match self.expect(Token::Number) {
                Ok(t) => t,
                Err(e) => {
                    return Err(e);
                },
            };
            assert(self.tokens@[self.pos - 1] == t);
            assert(t.start < t.end <= self.input.len());
            match decimal_of(&self.input, t.start, t.end) {
                Some(number) => Ok(Directive::Expect { number }),
                None => Err(ParseError::BadNumber { start: self.byte_at(t.start), end: self.byte_at(t.end) }),
            }
        } else if self.text_is(d, "%name-prefix") {
            if let Err(e) = self.expect(Token::Equal) {
                return Err(e);
            }
            let t = match self.expect(Token::String) {
                Ok(t) => t,
                Err(e) => {
                    return Err(e);
                },
            };
            assert(self.tokens@[self.pos - 1] == t);
            Ok(Directive::NamePrefix { prefix: self.text_of(t) })
        } else if self.text_is(d, "%locations") {
            Ok(Directive::Locations)
        } else if self.text_is(d, "%parse-param") {
            let t = match self.expect(Token::Code) {
                Ok(t) => t,
                Err(e) => {
                    return Err(e);
                },
            };
            assert(self.tokens@[self.pos - 1] == t);
            Ok(Directive::ParseParam { params: self.text_of(t) })
        } else if self.text_is(d, "%lex-param") {
            let t = match self.expect(Token::Code) {
                Ok(t) => t,
                Err(e) => {
                    return Err(e);
                },
            };
            assert(self.tokens@[self.pos - 1] == t);
            Ok(Directive::LexParam { params: self.text_of(t) })
        } else if self.text_is(d, "%union") {
            let t = match self.expect(Token::Code) {
                Ok(t) => t,
                Err(e) => {
                    return Err(e);
                },
            };
            assert(self.tokens@[self.pos - 1] == t);
            Ok(Directive::Union { code: self.text_of(t) })
        } else if self.text_is(d, "%type") {
            let t = match self.expect(Token::Type) {
                Ok(t) => t,
                Err(e) => {
                    return Err(e);
                },
            };
            assert(self.tokens@[self.pos - 1] == t);
            let value_type = self.text_of(t);
            let rule_names = self.rule_names();
            Ok(Directive::Type { value_type, rule_names })
        } else if self.text_is(d, "%token") {
            let token_name = if self.peek() == Some(Token::Type) {
                let t = self.tokens[self.pos];
                assert(self.tokens@[self.pos as int] == t);
                self.pos = self.pos + 1;
                Some(self.text_of(t))
            } else {
                None
            };
            let rule_names = self.rule_names();
            Ok(Directive::Token { token_name, rule_names })
        } else if self.text_is(d, "%left") {
            Ok(Directive::Left { rule_names: self.rule_names() })
        } else if self.text_is(d, "%right") {
            Ok(Directive::Right { rule_names: self.rule_names() })
        } else if self.text_is(d, "%nonassoc") {
            Ok(Directive::NonAssoc { rule_names: self.rule_names() })
        } else {
            Err(ParseError::UnknownDirective { start: self.byte_at(d.start), end: self.byte_at(d.end) })
        }
    }

    fn parse_prologue(&mut self) -> (r: Result<String, ParseError>)
        requires
            old(self).wf(),
        ensures
            Self::same_source(old(self), final(self)),
            match expect_at(old(self).text(), old(self).tokens(), old(self).position(), Token::Prologue) {
                Ok(t) => r matches Ok(x) && x@ == prologue_text(old(self).text(), t)
                    && final(self).position() == old(self).position() + 1,
                Err(e) => r == Err::<String, ParseError>(e),
            },
    {
        let t = match self.expect(Token::Prologue) {
            Ok(t) => t,
            Err(e) => {
                return Err(e);
            },
        };
        assert(self.tokens@[self.pos - 1] == t);
        Ok(slice_string(&self.input, t.start + 2, t.end - 1))
    }

    fn parse_head(&mut self) -> (r: Result<(Vec<Directive>, Vec<String>), ParseError>)
        requires
            old(self).wf(),
        ensures
            Self::same_source(old(self), final(self)),
            match head_from(
                old(self).text(),
                old(self).tokens(),
                old(self).position(),
                Seq::empty(),
                Seq::empty(),
            ) {
                Ok((ds, ps, e)) => r matches Ok((x, y)) && x@.map_values(|d: Directive| d@) == ds
                    && strings_view(y@) == ps && final(self).position() == e,
                Err(e) => r == Err::<(Vec<Directive>, Vec<String>), ParseError>(e),
            },
    {
        let mut directives: Vec<Directive> = Vec::new();
        let mut prologues: Vec<String> = Vec::new();
        assert(directives@.map_values(|d: Directive| d@) =~= Seq::<DirectiveV>::empty());
        assert(strings_view(prologues@) =~= Seq::<Seq<char>>::empty());
        loop
            invariant
                Self::same_source(old(self), self),
                head_from(
                    self.text(),
                    self.tokens(),
                    self.position(),
                    directives@.map_values(|d: Directive| d@),
                    strings_view(prologues@),
                ) == head_from(
                    old(self).text(),
                    old(self).tokens(),
                    old(self).position(),
                    Seq::empty(),
                    Seq::empty(),
                ),
            decreases self.tokens.len() - self.pos,
        {
            let ghost k = self.position();
            match self.peek() {
                Some(Token::Directive) => {
                    proof {
                        lemma_directive_advances(self.text(), self.tokens(), k);
                    }
                    let d = match self.parse_directive() {
                        Ok(d) => d,
                        Err(e) => {
                            return Err(e);
                        },
                    };
                    let ghost before = directives@.map_values(|d: Directive| d@);
                    directives.push(d);
                    assert(directives@.map_values(|d: Directive| d@) =~= before.push(d@));
                },
                Some(Token::Prologue) => {
                    let p = match self.parse_prologue() {
                        Ok(p) => p,
                        Err(e) => {
                            return Err(e);
                        },
                    };
                    let ghost before = strings_view(prologues@);
                    prologues.push(p);
                    assert(strings_view(prologues@) =~= before.push(p@));
                },
                _ => {
                    return Ok((directives, prologues));
                },
            }
        }
    }

    fn parse_alternative(&mut self) -> (r: Result<Alternative, ParseError>)
        requires
            old(self).wf(),
        ensures
            Self::same_source(old(self), final(self)),
            match alternative_at(old(self).text(), old(self).tokens(), old(self).position()) {
                Ok((a, e)) => r matches Ok(x) && x@ == a && final(self).position() == e,
                Err(e) => r == Err::<Alternative, ParseError>(e),
            },
    {
        let elements = self.rule_names();
        let precedence = if self.peek() == Some(Token::Directive) {
            let t = self.tokens[self.pos];
            assert(self.tokens@[self.pos as int] == t);
            if !self.text_is(t, "%prec") {
                return Err(ParseError::NotPrec { start: self.byte_at(t.start), end: self.byte_at(t.end) });
            }
            self.pos = self.pos + 1;
            let name = match self.expect(Token::Ident) {
                Ok(name) => name,
                Err(e) => {
                    return Err(e);
                },
            };
            assert(self.tokens@[self.pos - 1] == name);
            Some(self.text_of(name))
        } else {
            None
        };
        let action = if self.peek() == Some(Token::Code) {
            let t = self.tokens[self.pos];
            assert(self.tokens@[self.pos as int] == t);
            self.pos = self.pos + 1;
            Some(self.text_of(t))
        } else {
            None
        };
        Ok(Alternative { elements, precedence, action })
    }

    fn parse_rule(&mut self) -> (r: Result<Rule, ParseError>)
        requires
            old(self).wf(),
        ensures
            Self::same_source(old(self), final(self)),
            match rule_at(old(self).text(), old(self).tokens(), old(self).position()) {
                Ok((rule, e)) => r matches Ok(x) && x@ == rule && final(self).position() == e,
                Err(e) => r == Err::<Rule, ParseError>(e),
            },
    {
        let n = match self.expect(Token::Ident) {
            Ok(n) => n,
            Err(e) => {
                return Err(e);
            },
        };
        assert(self.tokens@[self.pos - 1] == n);
        let name = self.text_of(n);
        if let Err(e) = self.expect(Token::Colon) {
            return Err(e);
        }
        let ghost k0 = self.position();
        let mut alternatives: Vec<Alternative> = Vec::new();
        assert(alternatives@.map_values(|a: Alternative| a@) =~= Seq::<AlternativeV>::empty());
        loop
            invariant
                Self::same_source(old(self), self),
                k0 == old(self).position() + 2,
                name@ == span_text(old(self).text(), n),
                expect_at(old(self).text(), old(self).tokens(), old(self).position(), Token::Ident) == Ok::<
                    Spanned,
                    ParseError,
                >(n),
                expect_at(old(self).text(), old(self).tokens(), old(self).position() + 1, Token::Colon) is Ok,
                alternatives_from(
                    self.text(),
                    self.tokens(),
                    self.position(),
                    alternatives@.map_values(|a: Alternative| a@),
                ) == alternatives_from(old(self).text(), old(self).tokens(), k0, Seq::empty()),
            decreases self.tokens.len() - self.pos,
        {
            let ghost k = self.position();
            proof {
                lemma_alternative_advances(self.text(), self.tokens(), k);
            }
            let a = match self.parse_alternative() {
                Ok(a) => a,
                Err(e) => {
                    return Err(e);
                },
            };
            let ghost before = alternatives@.map_values(|a: Alternative| a@);
            alternatives.push(a);
            assert(alternatives@.map_values(|a: Alternative| a@) =~= before.push(a@));
            match self.peek() {
                Some(Token::Bar) => {
                    self.pos = self.pos + 1;
                },
                Some(Token::SemiColon) => {
                    self.pos = self.pos + 1;
                    return Ok(Rule { name, alternatives });
                },
                Some(t) => {
                    let found = self.tokens[self.pos];
                    return Err(
                        ParseError::NotBarOrSemiColon {
                            found: t,
                            start: self.byte_at(found.start),
                            end: self.byte_at(found.end),
                        },
                    );
                },
                None => {
                    return Err(ParseError::EndOfInput { expected: Token::SemiColon });
                },
            }
        }
    }

    #[verifier::loop_isolation(false)]
    fn parse_rules(&mut self, rules: Vec<Rule>) -> (r: Result<Vec<Rule>, ParseError>)
        requires
            old(self).wf(),
        ensures
            Self::same_source(old(self), final(self)),
            match rules_from(
                old(self).text(),
                old(self).tokens(),
                old(self).position(),
                rules@.map_values(|r: Rule| r@),
            ) {
                Ok((rs, e)) => r matches Ok(x) && x@.map_values(|r: Rule| r@) == rs
                    && final(self).position() == e,
                Err(e) => r == Err::<Vec<Rule>, ParseError>(e),
            },
    {
        let ghost start = rules@.map_values(|r: Rule| r@);
        let mut rules = rules;
        loop
            invariant
                Self::same_source(old(self), self),
                rules_from(
                    self.text(),
                    self.tokens(),
                    self.position(),
                    rules@.map_values(|r: Rule| r@),
                ) == rules_from(
                    old(self).text(),
                    old(self).tokens(),
                    old(self).position(),
                    start,
                ),
            decreases self.tokens.len() - self.pos,
        {
            if self.peek() != Some(Token::Ident) {
                return Ok(rules);
            }
            let ghost k = self.position();
            proof {
                lemma_rule_advances(self.text(), self.tokens(), k);
            }
            let rule = match self.parse_rule() {
                Ok(rule) => rule,
                Err(e) => {
                    return Err(e);
                },
            };
            let ghost before = rules@.map_values(|r: Rule| r@);
            rules.push(rule);
            assert(rules@.map_values(|r: Rule| r@) =~= before.push(rule@));
        }
    }

    fn parse_epilogue(&mut self) -> (r: Result<String, ParseError>)
        requires
            old(self).wf(),
        ensures
            Self::same_source(old(self), final(self)),
            match expect_at(old(self).text(), old(self).tokens(), old(self).position(), Token::Epilogue) {
                Ok(t) => r matches Ok(x) && x@ == epilogue_text(old(self).text(), t)
                    && final(self).position() == old(self).position() + 1,
                Err(e) => r == Err::<String, ParseError>(e),
            },
    {
        let t = match self.expect(Token::Epilogue) {
            Ok(t) => t,
            Err(e) => {
                return Err(e);
            },
        };
        assert(self.tokens@[self.pos - 1] == t);
        Ok(slice_string(&self.input, t.start + 2, t.end))
    }

    /// Parses the whole document from the current token on.
    pub fn parse_grammar(&mut self) -> (r: Result<Grammar, ParseError>)
        requires
            old(self).wf(),
        ensures
            Self::same_source(old(self), final(self)),
            match grammar_from(old(self).text(), old(self).tokens(), old(self).position()) {
                Ok(g) => r matches Ok(x) && x@ == g,
                Err(e) => r == Err::<Grammar, ParseError>(e),
            },
    {
        let (directives, prologues) = match self.parse_head() {
            Ok(h) => h,
            Err(e) => {
                return Err(e);
            },
        };
        if let Err(e) = self.expect(Token::PercentPercent) {
            return Err(e);
        }
        let first = match self.parse_rule() {
            Ok(rule) => rule,
            Err(e) => {
                return Err(e);
            },
        };
        let ghost first_v = first@;
        let mut rules: Vec<Rule> = Vec::new();
        rules.push(first);
        assert(rules@.map_values(|r: Rule| r@) =~= seq![first_v]);
        let rules = match self.parse_rules(rules) {
            Ok(rules) => rules,
            Err(e) => {
                return Err(e);
            },
        };
        let epilogue = match self.parse_epilogue() {
            Ok(e) => e,
            Err(e) => {
                return Err(e);
            },
        };
        Ok(Grammar { directives, rules, prologues, epilogue })
    }
}


/// Parses a whole source text into a grammar document.
pub fn parse(input: &str) -> (r: Result<Grammar, ParseError>)
    requires
        encode_utf8(input@).len() <= usize::MAX,
    ensures
        match document_of(input@) {
            Ok(g) => r matches Ok(x) && x@ == g,
            Err(e) => r == Err::<Grammar, ParseError>(e),
        },
{
    let lexer = Lexer::new(input);
    let mut parser = Parser::new(input, lexer);
    let ghost ts = parser.tokens();
    assert(ts.map_values(|t: Spanned| t@) == tokens_of(input@));
    assert(ts =~= spanned_of(tokens_of(input@))) by {
        assert forall|k: int| 0 <= k < ts.len() implies ts[k] == spanned_of(tokens_of(input@))[k] by {
            assert(ts.map_values(|t: Spanned| t@)[k] == ts[k]@);
        }
    }
    parser.parse_grammar()
}

} // verus!
