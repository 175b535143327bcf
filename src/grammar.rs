use vstd::prelude::*;

verus! {

/// One `%` declaration of a grammar's head.
#[derive(Debug, PartialEq, Eq)]
pub enum Directive {
    /// `%pure-parser`
    PureParser,
    /// `%expect N`
    Expect { number: u64 },
    /// `%name-prefix = "p"`; the prefix keeps its quotes.
    NamePrefix { prefix: String },
    /// `%locations`
    Locations,
    /// `%parse-param { ... }`; the code keeps its braces.
    ParseParam { params: String },
    /// `%lex-param { ... }`; the code keeps its braces.
    LexParam { params: String },
    /// `%union { ... }`; the code keeps its braces.
    Union { code: String },
    /// `%type <t> names...`
    Type { value_type: String, rule_names: Vec<String> },
    /// `%token <t>? names...`
    Token { token_name: Option<String>, rule_names: Vec<String> },
    /// `%left names...`
    Left { rule_names: Vec<String> },
    /// `%right names...`
    Right { rule_names: Vec<String> },
    /// `%nonassoc names...`
    NonAssoc { rule_names: Vec<String> },
}

/// One right-hand side of a rule.
#[derive(Debug, PartialEq, Eq)]
pub struct Alternative {
    /// Identifiers and quoted characters, as written.
    pub elements: Vec<String>,
    /// The name after `%prec`, if any.
    pub precedence: Option<String>,
    /// The action, braces included, if any.
    pub action: Option<String>,
}

/// A rule: its left-hand side and its alternatives, in order.
#[derive(Debug, PartialEq, Eq)]
pub struct Rule {
    pub name: String,
    pub alternatives: Vec<Alternative>,
}

/// A whole grammar document.
#[derive(Debug, PartialEq, Eq)]
pub struct Grammar {
    pub directives: Vec<Directive>,
    pub rules: Vec<Rule>,
    /// The text between each `%{` and `%}`.
    pub prologues: Vec<String>,
    /// Everything after the second `%%`.
    pub epilogue: String,
}

/// The mathematical value of a [`Directive`].
pub enum DirectiveV {
    PureParser,
    Expect { number: u64 },
    NamePrefix { prefix: Seq<char> },
    Locations,
    ParseParam { params: Seq<char> },
    LexParam { params: Seq<char> },
    Union { code: Seq<char> },
    Type { value_type: Seq<char>, rule_names: Seq<Seq<char>> },
    Token { token_name: Option<Seq<char>>, rule_names: Seq<Seq<char>> },
    Left { rule_names: Seq<Seq<char>> },
    Right { rule_names: Seq<Seq<char>> },
    NonAssoc { rule_names: Seq<Seq<char>> },
}

/// The mathematical value of an [`Alternative`].
pub struct AlternativeV {
    pub elements: Seq<Seq<char>>,
    pub precedence: Option<Seq<char>>,
    pub action: Option<Seq<char>>,
}

/// The mathematical value of a [`Rule`].
pub struct RuleV {
    pub name: Seq<char>,
    pub alternatives: Seq<AlternativeV>,
}

/// The mathematical value of a [`Grammar`].
pub struct GrammarV {
    pub directives: Seq<DirectiveV>,
    pub prologues: Seq<Seq<char>>,
    pub rules: Seq<RuleV>,
    pub epilogue: Seq<char>,
}

/// The character sequences of a list of strings.
pub open spec fn strings_view(v: Seq<String>) -> Seq<Seq<char>> {
    v.map_values(|x: String| x@)
}

/// The character sequence of an optional string.
pub open spec fn opt_view(o: Option<String>) -> Option<Seq<char>> {
    match o {
        Some(x) => Some(x@),
        None => None,
    }
}

impl View for Directive {
    type V = DirectiveV;

    open spec fn view(&self) -> DirectiveV {
        match self {
            Directive::PureParser => DirectiveV::PureParser,
            Directive::Expect { number } => DirectiveV::Expect { number: *number },
            Directive::NamePrefix { prefix } => DirectiveV::NamePrefix { prefix: prefix@ },
            Directive::Locations => DirectiveV::Locations,
            Directive::ParseParam { params } => DirectiveV::ParseParam { params: params@ },
            Directive::LexParam { params } => DirectiveV::LexParam { params: params@ },
            Directive::Union { code } => DirectiveV::Union { code: code@ },
            Directive::Type { value_type, rule_names } => DirectiveV::Type {
                value_type: value_type@,
                rule_names: strings_view(rule_names@),
            },
            Directive::Token { token_name, rule_names } => DirectiveV::Token {
                token_name: opt_view(*token_name),
                rule_names: strings_view(rule_names@),
            },
            Directive::Left { rule_names } => DirectiveV::Left {
                rule_names: strings_view(rule_names@),
            },
            Directive::Right { rule_names } => DirectiveV::Right {
                rule_names: strings_view(rule_names@),
            },
            Directive::NonAssoc { rule_names } => DirectiveV::NonAssoc {
                rule_names: strings_view(rule_names@),
            },
        }
    }
}

impl View for Alternative {
    type V = AlternativeV;

    open spec fn view(&self) -> AlternativeV {
        AlternativeV {
            elements: strings_view(self.elements@),
            precedence: opt_view(self.precedence),
            action: opt_view(self.action),
        }
    }
}

impl View for Rule {
    type V = RuleV;

    open spec fn view(&self) -> RuleV {
        RuleV {
            name: self.name@,
            alternatives: self.alternatives@.map_values(|a: Alternative| a@),
        }
    }
}

impl View for Grammar {
    type V = GrammarV;

    open spec fn view(&self) -> GrammarV {
        GrammarV {
            directives: self.directives@.map_values(|d: Directive| d@),
            prologues: strings_view(self.prologues@),
            rules: self.rules@.map_values(|r: Rule| r@),
            epilogue: self.epilogue@,
        }
    }
}

} // verus!
