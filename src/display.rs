use vstd::prelude::*;
use vstd::string::StringExecFns;
use crate::grammar::Alternative;
use crate::grammar::AlternativeV;
use crate::grammar::Directive;
use crate::grammar::DirectiveV;
use crate::grammar::Grammar;
use crate::grammar::GrammarV;
use crate::grammar::Rule;
use crate::grammar::RuleV;
use crate::grammar::strings_view;
use crate::text::push_char;
use crate::parser::all_digits;
use crate::parser::decimal_value;

verus! {

/// The decimal digit character for `d` in `0..10`.
pub open spec fn digit_char(d: int) -> char {
    seq!['0', '1', '2', '3', '4', '5', '6', '7', '8', '9'][d]
}

/// The decimal digits of `n`, without leading zeros.
pub open spec fn decimal_text(n: nat) -> Seq<char>
    decreases n,
{
    if n < 10 {
        seq![digit_char(n as int)]
    } else {
        decimal_text(n / 10) + seq![digit_char((n % 10) as int)]
    }
}

/// Each name preceded by a space.
pub open spec fn names_text(names: Seq<Seq<char>>) -> Seq<char>
    decreases names.len(),
{
    if names.len() == 0 {
        Seq::empty()
    } else {
        names_text(names.drop_last()) + seq![' '] + names.last()
    }
}

/// One directive on a line of its own.
pub open spec fn directive_text(d: DirectiveV) -> Seq<char> {
    match d {
        DirectiveV::PureParser => "%pure-parser\n"@,
        DirectiveV::Expect { number } => "%expect "@ + decimal_text(number as nat) + seq!['\n'],
        DirectiveV::NamePrefix { prefix } => "%name-prefix="@ + prefix + seq!['\n'],
        DirectiveV::Locations => "%locations\n"@,
        DirectiveV::ParseParam { params } => "%parse-param "@ + params + seq!['\n'],
        DirectiveV::LexParam { params } => "%lex-param "@ + params + seq!['\n'],
        DirectiveV::Union { code } => "%union "@ + code + seq!['\n'],
        DirectiveV::Type { value_type, rule_names } => "%type "@ + value_type + names_text(
            rule_names,
        ) + seq!['\n'],
        DirectiveV::Token { token_name, rule_names } => "%token"@ + match token_name {
            Some(t) => seq![' '] + t,
            None => Seq::empty(),
        } + names_text(rule_names) + seq!['\n'],
        DirectiveV::Left { rule_names } => "%left"@ + names_text(rule_names) + seq!['\n'],
        DirectiveV::Right { rule_names } => "%right"@ + names_text(rule_names) + seq!['\n'],
        DirectiveV::NonAssoc { rule_names } => "%nonassoc"@ + names_text(rule_names) + seq!['\n'],
    }
}

/// An alternative's elements, `%prec` and action, each preceded by a space.
pub open spec fn alternative_text(a: AlternativeV) -> Seq<char> {
    names_text(a.elements) + match a.precedence {
        Some(p) => " %prec "@ + p,
        None => Seq::empty(),
    } + match a.action {
        Some(c) => seq![' '] + c,
        None => Seq::empty(),
    }
}

/// One line per alternative: the first after `:`, the others after `|`.
pub open spec fn alternatives_text(alts: Seq<AlternativeV>) -> Seq<char>
    decreases alts.len(),
{
    if alts.len() == 0 {
        Seq::empty()
    } else {
        alternatives_text(alts.drop_last()) + (if alts.len() == 1 {
            "    :"@
        } else {
            "    |"@
        }) + alternative_text(alts.last()) + seq!['\n']
    }
}

/// A rule: its name on a line, its alternatives, and a closing `;` line.
pub open spec fn rule_text(r: RuleV) -> Seq<char> {
    r.name + seq!['\n'] + alternatives_text(r.alternatives) + "    ;\n\n"@
}

/// The rules, one after another.
pub open spec fn rules_text(rules: Seq<RuleV>) -> Seq<char>
    decreases rules.len(),
{
    if rules.len() == 0 {
        Seq::empty()
    } else {
        rules_text(rules.drop_last()) + rule_text(rules.last())
    }
}

/// The directives, one per line.
pub open spec fn directives_text(ds: Seq<DirectiveV>) -> Seq<char>
    decreases ds.len(),
{
    if ds.len() == 0 {
        Seq::empty()
    } else {
        directives_text(ds.drop_last()) + directive_text(ds.last())
    }
}

/// Each prologue between `%{` and `}` on its own line.
pub open spec fn prologues_text(ps: Seq<Seq<char>>) -> Seq<char>
    decreases ps.len(),
{
    if ps.len() == 0 {
        Seq::empty()
    } else {
        prologues_text(ps.drop_last()) + "%{"@ + ps.last() + "}\n"@
    }
}

/// The source text of a document: directives, prologues, `%%`, rules, `%%`
/// and the epilogue as it stands.
pub open spec fn render_text(g: GrammarV) -> Seq<char> {
    directives_text(g.directives) + prologues_text(g.prologues) + "%%\n"@ + rules_text(g.rules)
        + "%%"@ + g.epilogue
}

proof fn lemma_digit_char(d: int)
    requires
        0 <= d < 10,
    ensures
        digit_char(d) as u32 == '0' as u32 + d,
{
    let t = seq!['0', '1', '2', '3', '4', '5', '6', '7', '8', '9'];
    assert(t[0] == '0' && t[1] == '1' && t[2] == '2' && t[3] == '3' && t[4] == '4');
    assert(t[5] == '5' && t[6] == '6' && t[7] == '7' && t[8] == '8' && t[9] == '9');
}

/// The digits written for a number are all decimal digits, and read back as
/// that number.
pub proof fn lemma_decimal_round_trip(n: nat)
    ensures
        all_digits(decimal_text(n)),
        decimal_value(decimal_text(n)) == n,
    decreases n,
{
    let t = decimal_text(n);
    if n < 10 {
        lemma_digit_char(n as int);
        assert(t.drop_last() =~= Seq::<char>::empty());
        assert(decimal_value(t.drop_last()) == 0);
        assert(decimal_value(t) == decimal_value(t.drop_last()) * 10 + (t.last() as u32 - '0' as u32));
    } else {
        lemma_decimal_round_trip(n / 10);
        lemma_digit_char((n % 10) as int);
        assert(t.drop_last() =~= decimal_text(n / 10));
        assert(t.last() == digit_char((n % 10) as int));
        assert((n / 10) * 10 + n % 10 == n) by (nonlinear_arith);
        assert(decimal_value(t) == decimal_value(t.drop_last()) * 10 + (t.last() as u32 - '0' as u32));
        assert forall|i: int| 0 <= i < t.len() implies crate::lexer::is_digit(#[trigger] t[i]) by {
            if i < t.len() - 1 {
                assert(t[i] == decimal_text(n / 10)[i]);
            }
        }
    }
}

fn digit_of(d: u64) -> (c: char)
    requires
        d < 10,
    ensures
        c == digit_char(d as int),
{
    if d == 0 {
        '0'
    } else if d == 1 {
        '1'
    } else if d == 2 {
        '2'
    } else if d == 3 {
        '3'
    } else if d == 4 {
        '4'
    } else if d == 5 {
        '5'
    } else if d == 6 {
        '6'
    } else if d == 7 {
        '7'
    } else if d == 8 {
        '8'
    } else {
        '9'
    }
}

fn write_decimal(out: &mut String, n: u64)
    ensures
        final(out)@ == old(out)@ + decimal_text(n as nat),
    decreases n,
{
    if n >= 10 {
        write_decimal(out, n / 10);
    }
    push_char(out, digit_of(n % 10));
}

fn write_names(out: &mut String, names: &Vec<String>)
    ensures
        final(out)@ == old(out)@ + names_text(strings_view(names@)),
{
    let mut i: usize = 0;
    while i < names.len()
        invariant
            i <= names.len(),
            out@ == old(out)@ + names_text(strings_view(names@.take(i as int))),
        decreases names.len() - i,
    {
        let ghost before = out@;
        push_char(out, ' ');
        out.append(names[i].as_str());
        assert(strings_view(names@.take(i + 1)).drop_last() =~= strings_view(names@.take(i as int)));
        assert(out@ =~= before + seq![' '] + names@[i as int]@);
        i = i + 1;
    }
    assert(names@.take(names.len() as int) == names@);
}

fn write_directive(out: &mut String, d: &Directive)
    ensures
        final(out)@ == old(out)@ + directive_text(d@),
{
    match d {
        Directive::PureParser => {
            out.append("%pure-parser\n");
        },
        Directive::Expect { number } => {
            out.append("%expect ");
            write_decimal(out, *number);
            push_char(out, '\n');
        },
        Directive::NamePrefix { prefix } => {
            out.append("%name-prefix=");
            out.append(prefix.as_str());
            push_char(out, '\n');
        },
        Directive::Locations => {
            out.append("%locations\n");
        },
        Directive::ParseParam { params } => {
            out.append("%parse-param ");
            out.append(params.as_str());
            push_char(out, '\n');
        },
        Directive::LexParam { params } => {
            out.append("%lex-param ");
            out.append(params.as_str());
            push_char(out, '\n');
        },
        Directive::Union { code } => {
            out.append("%union ");
            out.append(code.as_str());
            push_char(out, '\n');
        },
        Directive::Type { value_type, rule_names } => {
            out.append("%type ");
            out.append(value_type.as_str());
            write_names(out, rule_names);
            push_char(out, '\n');
        },
        Directive::Token { token_name, rule_names } => {
            out.append("%token");
            match token_name {
                Some(t) => {
                    push_char(out, ' ');
                    out.append(t.as_str());
                },
                None => {},
            }
            write_names(out, rule_names);
            push_char(out, '\n');
        },
        Directive::Left { rule_names } => {
            out.append("%left");
            write_names(out, rule_names);
            push_char(out, '\n');
        },
        Directive::Right { rule_names } => {
            out.append("%right");
            write_names(out, rule_names);
            push_char(out, '\n');
        },
        Directive::NonAssoc { rule_names } => {
            out.append("%nonassoc");
            write_names(out, rule_names);
            push_char(out, '\n');
        },
    }
}

fn write_alternative(out: &mut String, a: &Alternative)
    ensures
        final(out)@ == old(out)@ + alternative_text(a@),
{
    let ghost start = out@;
    write_names(out, &a.elements);
    match &a.precedence {
        Some(p) => {
            out.append(" %prec ");
            out.append(p.as_str());
        },
        None => {},
    }
    match &a.action {
        Some(c) => {
            push_char(out, ' ');
            out.append(c.as_str());
        },
        None => {},
    }
    assert(out@ =~= start + alternative_text(a@));
}

fn write_rule(out: &mut String, r: &Rule)
    ensures
        final(out)@ == old(out)@ + rule_text(r@),
{
    out.append(r.name.as_str());
    push_char(out, '\n');
    let ghost head = out@;
    let ghost alts = r.alternatives@.map_values(|a: Alternative| a@);
    let mut i: usize = 0;
    while i < r.alternatives.len()
        invariant
            i <= r.alternatives.len(),
            alts == r.alternatives@.map_values(|a: Alternative| a@),
            out@ == head + alternatives_text(alts.take(i as int)),
        decreases r.alternatives.len() - i,
    {
        let ghost before = out@;
        if i == 0 {
            out.append("    :");
        } else {
            out.append("    |");
        }
        write_alternative(out, &r.alternatives[i]);
        push_char(out, '\n');
        assert(alts.take(i + 1).drop_last() =~= alts.take(i as int));
        assert(alts.take(i + 1).last() == r.alternatives@[i as int]@);
        i = i + 1;
    }
    assert(alts.take(alts.len() as int) == alts);
    out.append("    ;\n\n");
}

/// Writes a grammar document back out as source text.
pub fn render(g: &Grammar) -> (r: String)
    ensures
        r@ == render_text(g@),
{
    let mut out = String::new();
    let ghost ds = g.directives@.map_values(|d: Directive| d@);
    let mut i: usize = 0;
    while i < g.directives.len()
        invariant
            i <= g.directives.len(),
            ds == g.directives@.map_values(|d: Directive| d@),
            out@ == directives_text(ds.take(i as int)),
        decreases g.directives.len() - i,
    {
        write_directive(&mut out, &g.directives[i]);
        assert(ds.take(i + 1).drop_last() =~= ds.take(i as int));
        i = i + 1;
    }
    assert(ds.take(ds.len() as int) == ds);
    let ghost after_directives = out@;
    let ghost ps = strings_view(g.prologues@);
    let mut i: usize = 0;
    while i < g.prologues.len()
        invariant
            i <= g.prologues.len(),
            ps == strings_view(g.prologues@),
            out@ == after_directives + prologues_text(ps.take(i as int)),
        decreases g.prologues.len() - i,
    {
        let ghost before = out@;
        out.append("%{");
        out.append(g.prologues[i].as_str());
        out.append("}\n");
        assert(ps.take(i + 1).drop_last() =~= ps.take(i as int));
        assert(out@ =~= before + ("%{"@ + ps[i as int] + "}\n"@));
        i = i + 1;
    }
    assert(ps.take(ps.len() as int) == ps);
    out.append("%%\n");
    let ghost after_head = out@;
    let ghost rs = g.rules@.map_values(|r: Rule| r@);
    let mut i: usize = 0;
    while i < g.rules.len()
        invariant
            i <= g.rules.len(),
            rs == g.rules@.map_values(|r: Rule| r@),
            out@ == after_head + rules_text(rs.take(i as int)),
        decreases g.rules.len() - i,
    {
        write_rule(&mut out, &g.rules[i]);
        assert(rs.take(i + 1).drop_last() =~= rs.take(i as int));
        i = i + 1;
    }
    assert(rs.take(rs.len() as int) == rs);
    out.append("%%");
    out.append(g.epilogue.as_str());
    out
}

} // verus!
