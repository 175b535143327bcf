use yacc_grammar::display::render;
use yacc_grammar::grammar::Alternative;
use yacc_grammar::grammar::Directive;
use yacc_grammar::grammar::Grammar;
use yacc_grammar::grammar::Rule;
use yacc_grammar::lexer::tokenize;
use yacc_grammar::lexer::Lexer;
use yacc_grammar::parser::parse;
use yacc_grammar::parser::ParseError;
use yacc_grammar::parser::Parser;
use yacc_grammar::token::Spanned;
use yacc_grammar::token::Token;

fn kinds(input: &str) -> Vec<Token> {
    tokenize(input).iter().map(|t| t.data).collect()
}

fn s(x: &str) -> String {
    x.to_string()
}

#[test]
fn nested_braces_form_one_code_token() {
    let input = "{ a { b } c }";
    assert_eq!(tokenize(input), vec![Spanned::new(Token::Code, 0, 13)]);
}

#[test]
fn unclosed_brace_is_an_error_token() {
    assert_eq!(tokenize("{ a { b }"), vec![Spanned::new(Token::Error, 0, 9)]);
}

#[test]
fn second_separator_starts_the_epilogue() {
    let input = "%token A\n%%\na: ;\n%% x %% y\n";
    let tokens = tokenize(input);
    assert_eq!(
        kinds(input),
        vec![
            Token::Directive,
            Token::Ident,
            Token::PercentPercent,
            Token::Ident,
            Token::Colon,
            Token::SemiColon,
            Token::Epilogue,
        ]
    );
    assert_eq!(tokens[2], Spanned::new(Token::PercentPercent, 9, 11));
    assert_eq!(tokens[6], Spanned::new(Token::Epilogue, 17, input.len()));
}

#[test]
fn spans_and_skipped_text_cover_the_input() {
    let input = "a /* c */ b // d\n  'x' \"s\" <t> 42 = | : ; %left";
    let tokens = tokenize(input);
    assert_eq!(
        kinds(input),
        vec![
            Token::Ident,
            Token::Ident,
            Token::Char,
            Token::String,
            Token::Type,
            Token::Number,
            Token::Equal,
            Token::Bar,
            Token::Colon,
            Token::SemiColon,
            Token::Directive,
        ]
    );
    let mut prev = 0;
    for t in &tokens {
        assert!(prev <= t.start && t.start < t.end);
        prev = t.end;
    }
    assert_eq!(prev, input.len());
    let texts: Vec<&str> = tokens.iter().map(|t| &input[t.start..t.end]).collect();
    assert_eq!(
        texts,
        vec!["a", "b", "'x'", "\"s\"", "<t>", "42", "=", "|", ":", ";", "%left"]
    );
}

#[test]
fn malformed_lexemes_are_error_tokens() {
    assert_eq!(tokenize("'ab"), vec![Spanned::new(Token::Error, 0, 3)]);
    assert_eq!(tokenize("/x"), vec![Spanned::new(Token::Error, 0, 2)]);
    assert_eq!(tokenize("/"), vec![Spanned::new(Token::Error, 0, 1)]);
    assert_eq!(tokenize("%?"), vec![Spanned::new(Token::Error, 0, 2)]);
    assert_eq!(tokenize("\"abc"), vec![Spanned::new(Token::Error, 0, 4)]);
    assert_eq!(tokenize("/* open"), vec![Spanned::new(Token::Error, 0, 7)]);
    assert_eq!(tokenize("%{ open"), vec![Spanned::new(Token::Error, 0, 7)]);
    assert_eq!(tokenize("#"), vec![Spanned::new(Token::Error, 0, 1)]);
    assert_eq!(
        tokenize("<a b>"),
        vec![
            Spanned::new(Token::Error, 0, 3),
            Spanned::new(Token::Ident, 3, 4),
            Spanned::new(Token::Error, 4, 5),
        ]
    );
}

#[test]
fn blanks_and_comments_yield_no_tokens() {
    assert!(tokenize("  \t\n// line\n/* block */ ").is_empty());
    assert!(tokenize("").is_empty());
}

#[test]
fn lexer_hands_out_tokens_one_at_a_time() {
    let mut lexer = Lexer::new("a : b");
    assert_eq!(lexer.next_token(), Some(Spanned::new(Token::Ident, 0, 1)));
    assert_eq!(lexer.next_token(), Some(Spanned::new(Token::Colon, 2, 3)));
    assert_eq!(lexer.next_token(), Some(Spanned::new(Token::Ident, 4, 5)));
    assert_eq!(lexer.next_token(), None);
    assert_eq!(lexer.next_token(), None);
}

#[test]
fn token_directive_with_one_rule() {
    let g = parse("%token NUM\n%%\nexpr: NUM { $$ = $1; } ;\n%%\n").unwrap();
    assert_eq!(
        g.directives,
        vec![Directive::Token { token_name: None, rule_names: vec![s("NUM")] }]
    );
    assert_eq!(
        g.rules,
        vec![Rule {
            name: s("expr"),
            alternatives: vec![Alternative {
                elements: vec![s("NUM")],
                precedence: None,
                action: Some(s("{ $$ = $1; }")),
            }],
        }]
    );
    assert_eq!(g.epilogue, "\n");
    assert!(g.prologues.is_empty());
}

#[test]
fn left_directive_with_quoted_characters_and_empty_rule() {
    let g = parse("%left '+' '-'\n%%\na: ;\n%%\n").unwrap();
    assert_eq!(g.directives, vec![Directive::Left { rule_names: vec![s("'+'"), s("'-'")] }]);
    assert_eq!(g.rules.len(), 1);
    assert_eq!(g.rules[0].name, "a");
    assert_eq!(
        g.rules[0].alternatives,
        vec![Alternative { elements: vec![], precedence: None, action: None }]
    );
}

#[test]
fn missing_semicolon_aborts() {
    let r = parse("%%\na: b | c\n%%\n");
    assert_eq!(
        r,
        Err(ParseError::NotBarOrSemiColon { found: Token::Epilogue, start: 12, end: 15 })
    );
    assert_eq!(
        parse("%%\na: b"),
        Err(ParseError::EndOfInput { expected: Token::SemiColon })
    );
}

#[test]
fn parser_over_a_lexer() {
    let input = "%%\ns: 'x' ;\n%%";
    let mut parser = Parser::new(input, Lexer::new(input));
    let g = parser.parse_grammar().unwrap();
    assert_eq!(g.rules[0].alternatives[0].elements, vec![s("'x'")]);
    assert_eq!(g.epilogue, "");
}

#[test]
fn every_directive_kind_is_read() {
    let input = "%pure-parser\n%expect 12\n%name-prefix = \"yy\"\n%locations\n\
                 %parse-param { int *p }\n%lex-param { void *q }\n%union { int i; }\n\
                 %type <i> exp term\n%token <i> NUM 'x'\n%right '^'\n%nonassoc LT GT\n\
                 %{ #include <stdio.h> %}\n%%\n\
                 exp: exp '+' term { $$ = $1 + $3; }\n  | '-' exp %prec NEG\n  | term\n  ;\n\
                 term: NUM ;\n%%\nint main() {}\n";
    let g = parse(input).unwrap();
    assert_eq!(
        g.directives,
        vec![
            Directive::PureParser,
            Directive::Expect { number: 12 },
            Directive::NamePrefix { prefix: s("\"yy\"") },
            Directive::Locations,
            Directive::ParseParam { params: s("{ int *p }") },
            Directive::LexParam { params: s("{ void *q }") },
            Directive::Union { code: s("{ int i; }") },
            Directive::Type { value_type: s("<i>"), rule_names: vec![s("exp"), s("term")] },
            Directive::Token { token_name: Some(s("<i>")), rule_names: vec![s("NUM"), s("'x'")] },
            Directive::Right { rule_names: vec![s("'^'")] },
            Directive::NonAssoc { rule_names: vec![s("LT"), s("GT")] },
        ]
    );
    assert_eq!(g.prologues, vec![s(" #include <stdio.h> %")]);
    assert_eq!(g.rules.len(), 2);
    assert_eq!(g.rules[0].alternatives.len(), 3);
    assert_eq!(
        g.rules[0].alternatives[1],
        Alternative {
            elements: vec![s("'-'"), s("exp")],
            precedence: Some(s("NEG")),
            action: None,
        }
    );
    assert_eq!(g.epilogue, "\nint main() {}\n");
}

#[test]
fn render_writes_the_document_out() {
    let g = Grammar {
        directives: vec![
            Directive::Expect { number: 305 },
            Directive::Token { token_name: Some(s("<v>")), rule_names: vec![s("A"), s("B")] },
            Directive::Left { rule_names: vec![] },
        ],
        rules: vec![Rule {
            name: s("r"),
            alternatives: vec![
                Alternative { elements: vec![s("A")], precedence: None, action: None },
                Alternative {
                    elements: vec![],
                    precedence: Some(s("B")),
                    action: Some(s("{ x(); }")),
                },
            ],
        }],
        prologues: vec![s(" p %")],
        epilogue: s("\ntail\n"),
    };
    assert_eq!(
        render(&g),
        "%expect 305\n%token <v> A B\n%left\n%{ p %}\n%%\nr\n    : A\n    | %prec B { x(); }\n    ;\n\n%%\ntail\n"
    );
}

#[test]
fn parse_of_render_gives_the_document_back() {
    let input = "%token <i> NUM\n%left '+'\n%expect 0\n%union { int i; }\n%{ a %}\n%%\n\
                 e: e '+' e { $$ = $1 + $3; } | NUM %prec PLUS ;\nf: ;\n%%\nrest %% here\n";
    let g = parse(input).unwrap();
    let again = parse(&render(&g)).unwrap();
    assert_eq!(again, g);
}

#[test]
fn comments_and_blanks_do_not_change_the_document() {
    let plain = parse("%token A\n%%\nr: A ;\n%%\n").unwrap();
    let spaced =
        parse("/* head */ %token   A // names\n\n%%\n r /* lhs */ :\tA\n ; // end\n%%\n").unwrap();
    assert_eq!(plain.directives, spaced.directives);
    assert_eq!(plain.rules, spaced.rules);
}

#[test]
fn unknown_directive_is_an_error() {
    assert_eq!(
        parse("%bogus\n%%\na: ;\n%%\n"),
        Err(ParseError::UnknownDirective { start: 0, end: 6 })
    );
}

#[test]
fn number_too_large_is_an_error() {
    assert_eq!(
        parse("%expect 18446744073709551616\n%%\na: ;\n%%\n"),
        Err(ParseError::BadNumber { start: 8, end: 28 })
    );
    let g = parse("%expect 18446744073709551615\n%%\na: ;\n%%\n").unwrap();
    assert_eq!(g.directives, vec![Directive::Expect { number: u64::MAX }]);
}

#[test]
fn directive_other_than_prec_in_alternative_is_an_error() {
    assert_eq!(
        parse("%%\na: b %left c ;\n%%\n"),
        Err(ParseError::NotPrec { start: 8, end: 13 })
    );
}

#[test]
fn wrong_token_kind_is_an_error() {
    assert_eq!(
        parse("%%\na b ;\n%%\n"),
        Err(ParseError::Unexpected { expected: Token::Colon, found: Token::Ident, start: 5, end: 6 })
    );
    assert_eq!(
        parse("%token A\n"),
        Err(ParseError::EndOfInput { expected: Token::PercentPercent })
    );
    assert_eq!(
        parse("%%\n%%\n"),
        Err(ParseError::Unexpected { expected: Token::Ident, found: Token::Epilogue, start: 3, end: 6 })
    );
    assert_eq!(
        parse("%%\na: ;\n"),
        Err(ParseError::EndOfInput { expected: Token::Epilogue })
    );
}

#[test]
fn spans_are_byte_offsets() {
    let input = "é a « b";
    assert_eq!(
        tokenize(input),
        vec![
            Spanned::new(Token::Error, 0, 2),
            Spanned::new(Token::Ident, 3, 4),
            Spanned::new(Token::Error, 5, 7),
            Spanned::new(Token::Ident, 8, 9),
        ]
    );
    assert_eq!(
        parse("%%\nr: x ; %left\n%%\n"),
        Err(ParseError::Unexpected { expected: Token::Epilogue, found: Token::Directive, start: 10, end: 15 })
    );
    assert_eq!(
        parse("%%\nr: \"ü\" ;\n%%\n"),
        Err(ParseError::NotBarOrSemiColon { found: Token::String, start: 6, end: 10 })
    );
    let g = parse("%%\nr: x { ü } ;\n%% ß\n").unwrap();
    assert_eq!(g.rules[0].alternatives[0].action, Some(s("{ ü }")));
    assert_eq!(g.epilogue, " ß\n");
}
