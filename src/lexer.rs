use vstd::prelude::*;
use crate::token::Spanned;
use crate::token::Token;
use crate::text::chars_of;
use crate::text::byte_offset;
use crate::text::byte_offsets;
use vstd::utf8::encode_utf8;

verus! {

/// The character runs that the lexer consumes greedily.
#[derive(Clone, Copy, Debug, PartialEq, Eq, Structural)]
pub enum CharClass {
    /// `0-9`, the tail of a number.
    Digit,
    /// Letters, digits and `_`, the tail of an identifier.
    Name,
    /// Letters, digits, `_` and `-`, the tail of a directive name.
    DirectiveName,
}

/// ASCII letters.
pub open spec fn is_letter(c: char) -> bool {
    ('a' as u32 <= c as u32 && c as u32 <= 'z' as u32) || ('A' as u32 <= c as u32 && c as u32
        <= 'Z' as u32)
}

/// ASCII decimal digits.
pub open spec fn is_digit(c: char) -> bool {
    '0' as u32 <= c as u32 && c as u32 <= '9' as u32
}

/// The characters skipped between tokens: space, tab and newline.
pub open spec fn is_blank(c: char) -> bool {
    c == ' ' || c == '\t' || c == '\n'
}

/// Whether `c` continues a run of class `k`.
pub open spec fn in_class(c: char, k: CharClass) -> bool {
    match k {
        CharClass::Digit => is_digit(c),
        CharClass::Name => is_letter(c) || is_digit(c) || c == '_',
        CharClass::DirectiveName => is_letter(c) || is_digit(c) || c == '_' || c == '-',
    }
}

/// The first position at or after `i` whose character is not of class `k`.
pub open spec fn run_end(s: Seq<char>, i: int, k: CharClass) -> int
    decreases s.len() - i,
{
    if 0 <= i < s.len() && in_class(s[i], k) {
        run_end(s, i + 1, k)
    } else {
        i
    }
}

/// The position just after the first newline at or after `i`, or the end of `s`.
pub open spec fn line_end(s: Seq<char>, i: int) -> int
    decreases s.len() - i,
{
    if i >= s.len() {
        s.len() as int
    } else if s[i] == '\n' {
        i + 1
    } else {
        line_end(s, i + 1)
    }
}

/// The position just after the first pair `a b` at or after `i`, if there is one.
pub open spec fn pair_end(s: Seq<char>, i: int, a: char, b: char) -> Option<int>
    decreases s.len() - i,
{
    if i + 1 >= s.len() {
        None
    } else if s[i] == a && s[i + 1] == b {
        Some(i + 2)
    } else {
        pair_end(s, i + 1, a, b)
    }
}

/// The position just after the first `"` at or after `i`, if there is one.
pub open spec fn string_end(s: Seq<char>, i: int) -> Option<int>
    decreases s.len() - i,
{
    if i >= s.len() {
        None
    } else if s[i] == '"' {
        Some(i + 1)
    } else {
        string_end(s, i + 1)
    }
}

/// The position just after the `}` that closes `depth` open braces, scanning from `i`.
pub open spec fn brace_end(s: Seq<char>, i: int, depth: nat) -> Option<int>
    decreases s.len() - i,
{
    if i >= s.len() {
        None
    } else if s[i] == '{' {
        brace_end(s, i + 1, depth + 1)
    } else if s[i] == '}' {
        if depth <= 1 {
            Some(i + 1)
        } else {
            brace_end(s, i + 1, (depth - 1) as nat)
        }
    } else {
        brace_end(s, i + 1, depth)
    }
}

/// The kind and end of a type name whose `<` stands just before `i`.
pub open spec fn type_end(s: Seq<char>, i: int) -> (Token, int)
    decreases s.len() - i,
{
    if i >= s.len() {
        (Token::Error, s.len() as int)
    } else if in_class(s[i], CharClass::Name) {
        type_end(s, i + 1)
    } else if s[i] == '>' {
        (Token::Type, i + 1)
    } else {
        (Token::Error, i + 1)
    }
}

/// The smaller of two integers.
pub open spec fn min(a: int, b: int) -> int {
    if a <= b {
        a
    } else {
        b
    }
}

/// A line comment ends inside the text and after its start.
pub proof fn lemma_line_end_bounds(s: Seq<char>, i: int)
    requires
        0 <= i,
    ensures
        i <= s.len() ==> i <= line_end(s, i) <= s.len(),
        i < s.len() ==> i < line_end(s, i),
    decreases s.len() - i,
{
    if i < s.len() && s[i] != '\n' {
        lemma_line_end_bounds(s, i + 1);
    }
}

/// A closing pair ends inside the text, two or more characters on.
pub proof fn lemma_pair_end_bounds(s: Seq<char>, i: int, a: char, b: char)
    requires
        0 <= i,
    ensures
        pair_end(s, i, a, b) matches Some(e) ==> i + 2 <= e <= s.len(),
    decreases s.len() - i,
{
    if i + 1 < s.len() && !(s[i] == a && s[i + 1] == b) {
        lemma_pair_end_bounds(s, i + 1, a, b);
    }
}

/// A run ends inside the text, at or after its start.
pub proof fn lemma_run_end_bounds(s: Seq<char>, i: int, k: CharClass)
    requires
        0 <= i <= s.len(),
    ensures
        i <= run_end(s, i, k) <= s.len(),
    decreases s.len() - i,
{
    if i < s.len() && in_class(s[i], k) {
        lemma_run_end_bounds(s, i + 1, k);
    }
}

/// A closing quote lies inside the text, after the start.
pub proof fn lemma_string_end_bounds(s: Seq<char>, i: int)
    requires
        0 <= i,
    ensures
        string_end(s, i) matches Some(e) ==> i < e <= s.len(),
    decreases s.len() - i,
{
    if i < s.len() && s[i] != '"' {
        lemma_string_end_bounds(s, i + 1);
    }
}

/// A closing brace lies inside the text, after the start.
pub proof fn lemma_brace_end_bounds(s: Seq<char>, i: int, depth: nat)
    requires
        0 <= i,
    ensures
        brace_end(s, i, depth) matches Some(e) ==> i < e <= s.len(),
    decreases s.len() - i,
{
    if i < s.len() {
        if s[i] == '{' {
            lemma_brace_end_bounds(s, i + 1, depth + 1);
        } else if s[i] == '}' {
            if depth > 1 {
                lemma_brace_end_bounds(s, i + 1, (depth - 1) as nat);
            }
        } else {
            lemma_brace_end_bounds(s, i + 1, depth);
        }
    }
}

/// A type name ends inside the text and yields a type or an error token.
pub proof fn lemma_type_end_bounds(s: Seq<char>, i: int)
    requires
        0 <= i <= s.len(),
    ensures
        i <= type_end(s, i).1 <= s.len(),
        type_end(s, i).0 == Token::Type || type_end(s, i).0 == Token::Error,
        i < s.len() ==> i < type_end(s, i).1,
    decreases s.len() - i,
{
    if i < s.len() && in_class(s[i], CharClass::Name) {
        lemma_type_end_bounds(s, i + 1);
    }
}

/// The position of the next token's first character at or after `i`: blanks,
/// `//` line comments and closed `/* */` comments are passed over.
pub open spec fn skip_trivia(s: Seq<char>, i: int) -> int
    decreases s.len() - i,
{
    if i < 0 || i >= s.len() {
        i
    } else if is_blank(s[i]) {
        skip_trivia(s, i + 1)
    } else if s[i] == '/' && i + 1 < s.len() && s[i + 1] == '/' {
        proof {
            lemma_line_end_bounds(s, i + 2);
        }
        skip_trivia(s, line_end(s, i + 2))
    } else if s[i] == '/' && i + 1 < s.len() && s[i + 1] == '*' && pair_end(s, i + 2, '*', '/')
        is Some {
        proof {
            lemma_pair_end_bounds(s, i + 2, '*', '/');
        }
        skip_trivia(s, pair_end(s, i + 2, '*', '/')->0)
    } else {
        i
    }
}

/// Skipping blanks and comments stays inside the text and never goes back.
pub proof fn lemma_skip_trivia_bounds(s: Seq<char>, i: int)
    requires
        0 <= i <= s.len(),
    ensures
        i <= skip_trivia(s, i) <= s.len(),
    decreases s.len() - i,
{
    if i < s.len() {
        if is_blank(s[i]) {
            lemma_skip_trivia_bounds(s, i + 1);
        } else if s[i] == '/' && i + 1 < s.len() && s[i + 1] == '/' {
            lemma_line_end_bounds(s, i + 2);
            lemma_skip_trivia_bounds(s, line_end(s, i + 2));
        } else if s[i] == '/' && i + 1 < s.len() && s[i + 1] == '*' && pair_end(
            s,
            i + 2,
            '*',
            '/',
        ) is Some {
            lemma_pair_end_bounds(s, i + 2, '*', '/');
            lemma_skip_trivia_bounds(s, pair_end(s, i + 2, '*', '/')->0);
        }
    }
}

/// The token that starts at position `i`, as its kind, its end, and whether a
/// `%%` has been seen once it is read; `sep` says whether one had been seen before.
pub open spec fn classify(s: Seq<char>, i: int, sep: bool) -> (Token, int, bool) {
    let c = s[i];
    let n = s.len() as int;
    if c == '\'' {
        if i + 2 < n && s[i + 2] == '\'' {
            (Token::Char, i + 3, sep)
        } else {
            (Token::Error, min(i + 3, n), sep)
        }
    } else if c == '/' {
        if i + 1 < n && s[i + 1] == '*' {
            (Token::Error, n, sep)
        } else {
            (Token::Error, min(i + 2, n), sep)
        }
    } else if c == '=' {
        (Token::Equal, i + 1, sep)
    } else if is_digit(c) {
        (Token::Number, run_end(s, i + 1, CharClass::Digit), sep)
    } else if c == '"' {
        match string_end(s, i + 1) {
            Some(e) => (Token::String, e, sep),
            None => (Token::Error, n, sep),
        }
    } else if c == '%' {
        if i + 1 >= n {
            (Token::Error, n, sep)
        } else if s[i + 1] == '%' {
            if sep {
                (Token::Epilogue, n, true)
            } else {
                (Token::PercentPercent, i + 2, true)
            }
        } else if s[i + 1] == '{' {
            match pair_end(s, i + 2, '%', '}') {
                Some(e) => (Token::Prologue, e, sep),
                None => (Token::Error, n, sep),
            }
        } else if is_letter(s[i + 1]) {
            (Token::Directive, run_end(s, i + 2, CharClass::DirectiveName), sep)
        } else {
            (Token::Error, i + 2, sep)
        }
    } else if c == '|' {
        (Token::Bar, i + 1, sep)
    } else if c == ':' {
        (Token::Colon, i + 1, sep)
    } else if c == ';' {
        (Token::SemiColon, i + 1, sep)
    } else if c == '{' {
        match brace_end(s, i + 1, 1) {
            Some(e) => (Token::Code, e, sep),
            None => (Token::Error, n, sep),
        }
    } else if is_letter(c) {
        (Token::Ident, run_end(s, i + 1, CharClass::Name), sep)
    } else if c == '<' {
        (type_end(s, i + 1).0, type_end(s, i + 1).1, sep)
    } else {
        (Token::Error, i + 1, sep)
    }
}

/// The next token after position `pos`, as its kind, start, end and the new
/// separator flag; `None` at the end of the input.
pub open spec fn lex_step(s: Seq<char>, pos: int, sep: bool) -> Option<(Token, int, int, bool)> {
    let start = skip_trivia(s, pos);
    if start >= s.len() {
        None
    } else {
        let (t, e, sep2) = classify(s, start, sep);
        Some((t, start, e, sep2))
    }
}

/// Every token is non-empty and lies inside the text; prologue and
/// epilogue tokens hold their delimiters; only `%%` changes the separator flag.
pub proof fn lemma_classify_bounds(s: Seq<char>, i: int, sep: bool)
    requires
        0 <= i < s.len(),
    ensures
        i < classify(s, i, sep).1 <= s.len(),
        classify(s, i, sep).0 == Token::Epilogue ==> classify(s, i, sep).1 == s.len() && i + 2
            <= s.len(),
        classify(s, i, sep).0 == Token::Prologue ==> i + 4 <= classify(s, i, sep).1,
        classify(s, i, sep).2 == (sep || classify(s, i, sep).0 == Token::PercentPercent),
        classify(s, i, sep).0 == Token::PercentPercent ==> !sep,
        classify(s, i, sep).0 == Token::Epilogue ==> sep,
{
    let n = s.len() as int;
    lemma_run_end_bounds(s, i + 1, CharClass::Digit);
    lemma_run_end_bounds(s, i + 1, CharClass::Name);
    if i + 2 <= n {
        lemma_run_end_bounds(s, i + 2, CharClass::DirectiveName);
    }
    lemma_string_end_bounds(s, i + 1);
    lemma_pair_end_bounds(s, i + 2, '%', '}');
    lemma_brace_end_bounds(s, i + 1, 1);
    lemma_type_end_bounds(s, i + 1);
}

/// Each token lies after the position that the scan starts from, and ends
/// after it starts.
pub proof fn lemma_lex_step_advances(s: Seq<char>, pos: int, sep: bool)
    requires
        0 <= pos <= s.len(),
    ensures
        lex_step(s, pos, sep) matches Some(st) ==> pos <= st.1 < st.2 <= s.len(),
        lex_step(s, pos, sep) is None ==> skip_trivia(s, pos) == s.len(),
        lex_step(s, pos, sep) matches Some(st) ==> (st.0 == Token::Epilogue ==> st.2 == s.len()
            && st.1 + 2 <= st.2),
        lex_step(s, pos, sep) matches Some(st) ==> (st.0 == Token::Prologue ==> st.1 + 4 <= st.2),
        lex_step(s, pos, sep) matches Some(st) ==> {
            &&& st.3 == (sep || st.0 == Token::PercentPercent)
            &&& st.0 == Token::PercentPercent ==> !sep
            &&& st.0 == Token::Epilogue ==> sep
        },
{
    lemma_skip_trivia_bounds(s, pos);
    let start = skip_trivia(s, pos);
    if start < s.len() {
        lemma_classify_bounds(s, start, sep);
    }
}

/// All tokens from position `pos` to the end of the input.
pub open spec fn tokens_from(s: Seq<char>, pos: int, sep: bool) -> Seq<(Token, int, int)>
    decreases s.len() - pos,
{
    if 0 <= pos <= s.len() {
        match lex_step(s, pos, sep) {
            None => Seq::empty(),
            Some(st) => {
                proof {
                    lemma_lex_step_advances(s, pos, sep);
                }
                seq![(st.0, st.1, st.2)] + tokens_from(s, st.2, st.3)
            },
        }
    } else {
        Seq::empty()
    }
}

/// All tokens of a source text, in order.
pub open spec fn tokens_of(s: Seq<char>) -> Seq<(Token, int, int)> {
    tokens_from(s, 0, false)
}


impl View for Spanned {
    type V = (Token, int, int);

    open spec fn view(&self) -> (Token, int, int) {
        (self.data, self.start as int, self.end as int)
    }
}

fn char_in_class(c: char, k: CharClass) -> (r: bool)
    ensures
        r == in_class(c, k),
{
    let u = c as u32;
    let digit = '0' as u32 <= u && u <= '9' as u32;
    let letter = ('a' as u32 <= u && u <= 'z' as u32) || ('A' as u32 <= u && u <= 'Z' as u32);
    match k {
        CharClass::Digit => digit,
        CharClass::Name => letter || digit || c == '_',
        CharClass::DirectiveName => letter || digit || c == '_' || c == '-',
    }
}

fn char_is_letter(c: char) -> (r: bool)
    ensures
        r == is_letter(c),
{
    let u = c as u32;
    ('a' as u32 <= u && u <= 'z' as u32) || ('A' as u32 <= u && u <= 'Z' as u32)
}

/// A scanner over the characters of a grammar source text. It hands out one
/// token at a time; positions count characters from the start of the text.
pub struct Lexer {
    input: Vec<char>,
    /// The byte offset of each character position, and of the end.
    offsets: Vec<usize>,
    pos: usize,
    seen_separator: bool,
}

impl Lexer {
    /// The characters being scanned.
    pub closed spec fn text(&self) -> Seq<char> {
        self.input@
    }

    /// Where the scan stands.
    pub closed spec fn position(&self) -> int {
        self.pos as int
    }

    /// Whether a `%%` has been read.
    pub closed spec fn separator_seen(&self) -> bool {
        self.seen_separator
    }

    /// The scan position lies inside the text.
    pub open spec fn wf(&self) -> bool {
        &&& 0 <= self.position() <= self.text().len()
        &&& self.offsets_ok()
    }

    /// The offset table holds the byte offset of every character position.
    pub closed spec fn offsets_ok(&self) -> bool {
        &&& self.offsets.len() == self.input.len() + 1
        &&& forall|i: int| 0 <= i <= self.input.len() ==> self.offsets@[i] == byte_offset(self.input@, i)
    }

    /// A lexer at the start of `input`.
    pub fn new(input: &str) -> (r: Lexer)
        requires
            encode_utf8(input@).len() <= usize::MAX,
        ensures
            r.wf(),
            r.text() == input@,
            r.position() == 0,
            !r.separator_seen(),
    {
        let input_chars = chars_of(input);
        let offsets = byte_offsets(input, &input_chars);
        Lexer { input: input_chars, offsets, pos: 0, seen_separator: false }
    }

    fn run_end(&self, i: usize, k: CharClass) -> (r: usize)
        requires
            i <= self.input.len(),
        ensures
            r == run_end(self.input@, i as int, k),
    {
        let mut j = i;
        while j < self.input.len() && char_in_class(self.input[j], k)
            invariant
                i <= j <= self.input.len(),
                run_end(self.input@, j as int, k) == run_end(self.input@, i as int, k),
            decreases self.input.len() - j,
        {
            j = j + 1;
        }
        j
    }

    fn line_end(&self, i: usize) -> (r: usize)
        requires
            i <= self.input.len(),
        ensures
            r == line_end(self.input@, i as int),
    {
        let mut j = i;
        while j < self.input.len()
            invariant
                i <= j <= self.input.len(),
                line_end(self.input@, j as int) == line_end(self.input@, i as int),
            decreases self.input.len() - j,
        {
            if self.input[j] == '\n' {
                return j + 1;
            }
            j = j + 1;
        }
        j
    }

    fn pair_end(&self, i: usize, a: char, b: char) -> (r: Option<usize>)
        requires
            i <= self.input.len(),
        ensures
            r matches Some(e) ==> pair_end(self.input@, i as int, a, b) == Some(e as int),
            r is None ==> pair_end(self.input@, i as int, a, b) is None,
    {
        let mut j = i;
        while self.input.len() - j > 1
            invariant
                i <= j <= self.input.len(),
                pair_end(self.input@, j as int, a, b) == pair_end(self.input@, i as int, a, b),
            decreases self.input.len() - j,
        {
            if self.input[j] == a && self.input[j + 1] == b {
                return Some(j + 2);
            }
            j = j + 1;
        }
        None
    }

    fn string_end(&self, i: usize) -> (r: Option<usize>)
        requires
            i <= self.input.len(),
        ensures
            r matches Some(e) ==> string_end(self.input@, i as int) == Some(e as int),
            r is None ==> string_end(self.input@, i as int) is None,
    {
        let mut j = i;
        while j < self.input.len()
            invariant
                i <= j <= self.input.len(),
                string_end(self.input@, j as int) == string_end(self.input@, i as int),
            decreases self.input.len() - j,
        {
            if self.input[j] == '"' {
                return Some(j + 1);
            }
            j = j + 1;
        }
        None
    }

    fn brace_end(&self, i: usize) -> (r: Option<usize>)
        requires
            i <= self.input.len(),
        ensures
            r matches Some(e) ==> brace_end(self.input@, i as int, 1) == Some(e as int),
            r is None ==> brace_end(self.input@, i as int, 1) is None,
    {
        let mut j = i;
        // Braces open beyond the outer one.
        let mut nested: usize = 0;
        while j < self.input.len()
            invariant
                i <= j <= self.input.len(),
                nested <= j - i,
                brace_end(self.input@, j as int, (nested + 1) as nat) == brace_end(
                    self.input@,
                    i as int,
                    1,
                ),
            decreases self.input.len() - j,
        {
            let c = self.input[j];
            if c == '{' {
                nested = nested + 1;
            } else if c == '}' {
                if nested == 0 {
                    return Some(j + 1);
                }
                nested = nested - 1;
            }
            j = j + 1;
        }
        None
    }

    fn type_end(&self, i: usize) -> (r: (Token, usize))
        requires
            i <= self.input.len(),
        ensures
            (r.0, r.1 as int) == type_end(self.input@, i as int),
    {
        let mut j = i;
        while j < self.input.len()
            invariant
                i <= j <= self.input.len(),
                type_end(self.input@, j as int) == type_end(self.input@, i as int),
            decreases self.input.len() - j,
        {
            let c = self.input[j];
            if char_in_class(c, CharClass::Name) {
                j = j + 1;
            } else if c == '>' {
                return (Token::Type, j + 1);
            } else {
                return (Token::Error, j + 1);
            }
        }
        (Token::Error, j)
    }

    fn skip_trivia(&self, i: usize) -> (r: usize)
        requires
            i <= self.input.len(),
        ensures
            r == skip_trivia(self.input@, i as int),
    {
        let n = self.input.len();
        let mut j = i;
        while j < n
            invariant
                n == self.input.len(),
                i <= j <= n,
                skip_trivia(self.input@, j as int) == skip_trivia(self.input@, i as int),
            decreases n - j,
        {
            let c = self.input[j];
            if c == ' ' || c == '\t' || c == '\n' {
                j = j + 1;
            } else if c == '/' && j + 1 < n && self.input[j + 1] == '/' {
                let e = self.line_end(j + 2);
                proof {
                    lemma_line_end_bounds(self.input@, j + 2);
                }
                j = e;
            } else if c == '/' && j + 1 < n && self.input[j + 1] == '*' {
                match self.pair_end(j + 2, '*', '/') {
                    Some(e) => {
                        proof {
                            lemma_pair_end_bounds(self.input@, j + 2, '*', '/');
                        }
                        j = e;
                    },
                    None => {
                        return j;
                    },
                }
            } else {
                return j;
            }
        }
        j
    }

    fn classify(&self, i: usize, sep: bool) -> (r: (Token, usize, bool))
        requires
            i < self.input.len(),
        ensures
            (r.0, r.1 as int, r.2) == classify(self.input@, i as int, sep),
    {
        let n = self.input.len();
        let c = self.input[i];
        if c == '\'' {
            if n - i > 2 && self.input[i + 2] == '\'' {
                (Token::Char, i + 3, sep)
            } else if n - i >= 3 {
                (Token::Error, i + 3, sep)
            } else {
                (Token::Error, n, sep)
            }
        } else if c == '/' {
            if i + 1 < n && self.input[i + 1] == '*' {
                (Token::Error, n, sep)
            } else if n - i >= 2 {
                (Token::Error, i + 2, sep)
            } else {
                (Token::Error, n, sep)
            }
        } else if c == '=' {
            (Token::Equal, i + 1, sep)
        } else if char_in_class(c, CharClass::Digit) {
            (Token::Number, self.run_end(i + 1, CharClass::Digit), sep)
        } else if c == '"' {
            match self.string_end(i + 1) {
                Some(e) => (Token::String, e, sep),
                None => (Token::Error, n, sep),
            }
        } else if c == '%' {
            if i + 1 >= n {
                (Token::Error, n, sep)
            } else if self.input[i + 1] == '%' {
                if sep {
                    (Token::Epilogue, n, true)
                } else {
                    (Token::PercentPercent, i + 2, true)
                }
            } else if self.input[i + 1] == '{' {
                match self.pair_end(i + 2, '%', '}') {
                    Some(e) => (Token::Prologue, e, sep),
                    None => (Token::Error, n, sep),
                }
            } else if char_is_letter(self.input[i + 1]) {
                (Token::Directive, self.run_end(i + 2, CharClass::DirectiveName), sep)
            } else {
                (Token::Error, i + 2, sep)
            }
        } else if c == '|' {
            (Token::Bar, i + 1, sep)
        } else if c == ':' {
            (Token::Colon, i + 1, sep)
        } else if c == ';' {
            (Token::SemiColon, i + 1, sep)
        } else if c == '{' {
            match self.brace_end(i + 1) {
                Some(e) => (Token::Code, e, sep),
                None => (Token::Error, n, sep),
            }
        } else if char_is_letter(c) {
            (Token::Ident, self.run_end(i + 1, CharClass::Name), sep)
        } else if c == '<' {
            let (t, e) = self.type_end(i + 1);
            (t, e, sep)
        } else {
            (Token::Error, i + 1, sep)
        }
    }

    /// Reads the next token, with its span in character positions.
    fn next_span(&mut self) -> (r: Option<Spanned>)
        requires
            old(self).wf(),
        ensures
            final(self).wf(),
            final(self).text() == old(self).text(),
            match lex_step(old(self).text(), old(self).position(), old(self).separator_seen()) {
                None => {
                    &&& r is None
                    &&& final(self).position() == old(self).text().len()
                    &&& final(self).separator_seen() == old(self).separator_seen()
                },
                Some(st) => {
                    &&& r matches Some(t) && t@ == (st.0, st.1, st.2)
                    &&& final(self).position() == st.2
                    &&& final(self).separator_seen() == st.3
                },
            },
    {
        proof {
            lemma_lex_step_advances(self.input@, self.pos as int, self.seen_separator);
        }
        let start = self.skip_trivia(self.pos);
        if start >= self.input.len() {
            self.pos = start;
            return None;
        }
        let (t, e, sep) = self.classify(start, self.seen_separator);
        self.pos = e;
        self.seen_separator = sep;
        Some(Spanned::new(t, start, e))
    }
}

/// Tokens with their character positions turned into byte offsets.
pub open spec fn byte_spans(s: Seq<char>, ts: Seq<(Token, int, int)>) -> Seq<(Token, int, int)> {
    ts.map_values(|t: (Token, int, int)| (t.0, byte_offset(s, t.1), byte_offset(s, t.2)))
}

/// Splits a source text into its tokens, in order, with spans in bytes.
pub fn tokenize(input: &str) -> (r: Vec<Spanned>)
    requires
        encode_utf8(input@).len() <= usize::MAX,
    ensures
        r@.map_values(|t: Spanned| t@) == byte_spans(input@, tokens_of(input@)),
{
    let mut lexer = Lexer::new(input);
    lexer.remaining_tokens()
}

impl Lexer {
    fn to_bytes(&self, t: Spanned) -> (r: Spanned)
        requires
            self.wf(),
            t.start <= t.end <= self.input.len(),
        ensures
            r@ == (t.data, byte_offset(self.input@, t.start as int), byte_offset(
                self.input@,
                t.end as int,
            )),
    {
        Spanned::new(t.data, self.offsets[t.start], self.offsets[t.end])
    }

    /// Reads the next token, or returns `None` once only blanks and comments
    /// are left. The span is in bytes of the source text.
    pub fn next_token(&mut self) -> (r: Option<Spanned>)
        requires
            old(self).wf(),
        ensures
            final(self).wf(),
            final(self).text() == old(self).text(),
            match lex_step(old(self).text(), old(self).position(), old(self).separator_seen()) {
                None => {
                    &&& r is None
                    &&& final(self).position() == old(self).text().len()
                    &&& final(self).separator_seen() == old(self).separator_seen()
                },
                Some(st) => {
                    &&& r matches Some(t) && t@ == (
                        st.0,
                        byte_offset(old(self).text(), st.1),
                        byte_offset(old(self).text(), st.2),
                    )
                    &&& final(self).position() == st.2
                    &&& final(self).separator_seen() == st.3
                },
            },
    {
        proof {
            lemma_lex_step_advances(self.input@, self.pos as int, self.seen_separator);
        }
        match self.next_span() {
            None => None,
            Some(t) => Some(self.to_bytes(t)),
        }
    }

    /// Reads all tokens that are left, in order, with spans in bytes.
    pub fn remaining_tokens(&mut self) -> (r: Vec<Spanned>)
        requires
            old(self).wf(),
        ensures
            final(self).wf(),
            final(self).text() == old(self).text(),
            r@.map_values(|t: Spanned| t@) == byte_spans(
                old(self).text(),
                tokens_from(old(self).text(), old(self).position(), old(self).separator_seen()),
            ),
    {
        let ghost s = self.text();
        let ghost p0 = self.position();
        proof {
            lemma_tokens_from_cover(s, p0, self.separator_seen());
        }
        let spans = self.remaining_spans();
        let ghost ts = spans@.map_values(|t: Spanned| t@);
        let mut out: Vec<Spanned> = Vec::new();
        let mut i: usize = 0;
        while i < spans.len()
            invariant
                self.wf(),
                self.text() == s,
                covers(s, p0, ts),
                ts == spans@.map_values(|t: Spanned| t@),
                i <= spans.len(),
                out@.map_values(|t: Spanned| t@) == byte_spans(s, ts.take(i as int)),
            decreases spans.len() - i,
        {
            let t = spans[i];
            assert(ts[i as int] == t@);
            let ghost tk = ts[i as int];
            assert(tk.1 < tk.2 <= s.len());
            let b = self.to_bytes(t);
            let ghost before = out@.map_values(|t: Spanned| t@);
            out.push(b);
            assert(out@.map_values(|t: Spanned| t@) =~= before.push(b@));
            assert(byte_spans(s, ts.take(i + 1)) =~= byte_spans(s, ts.take(i as int)).push(b@));
            i = i + 1;
        }
        assert(ts.take(ts.len() as int) == ts);
        out
    }

    /// Reads all tokens that are left, in order, with spans in character positions.
    pub(crate) fn remaining_spans(&mut self) -> (r: Vec<Spanned>)
        requires
            old(self).wf(),
        ensures
            final(self).wf(),
            final(self).text() == old(self).text(),
            r@.map_values(|t: Spanned| t@) == tokens_from(
                old(self).text(),
                old(self).position(),
                old(self).separator_seen(),
            ),
    {
        let ghost s = self.text();
        let ghost all = tokens_from(s, self.position(), self.separator_seen());
        let mut out: Vec<Spanned> = Vec::new();
        loop
            invariant
                self.wf(),
                s == old(self).text(),
                all == tokens_from(s, old(self).position(), old(self).separator_seen()),
                self.text() == s,
                out@.map_values(|t: Spanned| t@) + tokens_from(
                    s,
                    self.position(),
                    self.separator_seen(),
                ) == all,
            decreases self.text().len() - self.position(),
        {
            let ghost p = self.position();
            let ghost sp = self.separator_seen();
            proof {
                lemma_lex_step_advances(s, p, sp);
            }
            match self.next_span() {
                None => {
                    assert(tokens_from(s, p, sp) == Seq::<(Token, int, int)>::empty());
                    assert(out@.map_values(|t: Spanned| t@) + Seq::<(Token, int, int)>::empty()
                        == out@.map_values(|t: Spanned| t@));
                    return out;
                },
                Some(t) => {
                    let ghost before = out@.map_values(|t: Spanned| t@);
                    out.push(t);
                    assert(out@.map_values(|t: Spanned| t@) == before.push(t@));
                    assert(tokens_from(s, p, sp) == seq![t@] + tokens_from(
                        s,
                        self.position(),
                        self.separator_seen(),
                    ));
                    assert(before.push(t@) + tokens_from(s, self.position(), self.separator_seen())
                        == before + tokens_from(s, p, sp));
                },
            }
        }
    }
}

/// What `tokens_from` yields from `pos`: tokens in order, each non-empty, each
/// starting where the blanks and comments after the previous one end, and
/// after the last one only blanks and comments remain.
pub open spec fn covers(s: Seq<char>, pos: int, ts: Seq<(Token, int, int)>) -> bool {
    &&& forall|k: int| 0 <= k < ts.len() ==> #[trigger] ts[k].1 < ts[k].2 <= s.len()
    &&& forall|k: int|
        0 <= k < ts.len() && #[trigger] ts[k].0 == Token::Prologue ==> ts[k].1 + 4 <= ts[k].2
    &&& forall|k: int|
        0 <= k < ts.len() && #[trigger] ts[k].0 == Token::Epilogue ==> ts[k].1 + 2 <= ts[k].2
    &&& ts.len() == 0 ==> skip_trivia(s, pos) == s.len()
    &&& ts.len() > 0 ==> ts[0].1 == skip_trivia(s, pos)
    &&& forall|k: int| 0 < k < ts.len() ==> #[trigger] ts[k].1 == skip_trivia(s, ts[k - 1].2)
    &&& ts.len() > 0 ==> skip_trivia(s, ts.last().2) == s.len()
}

/// `tokens_from` covers the text from `pos` on.
pub proof fn lemma_tokens_from_cover(s: Seq<char>, pos: int, sep: bool)
    requires
        0 <= pos <= s.len(),
    ensures
        covers(s, pos, tokens_from(s, pos, sep)),
    decreases s.len() - pos,
{
    lemma_lex_step_advances(s, pos, sep);
    match lex_step(s, pos, sep) {
        None => {},
        Some(st) => {
            lemma_tokens_from_cover(s, st.2, st.3);
            let rest = tokens_from(s, st.2, st.3);
            let ts = tokens_from(s, pos, sep);
            assert(ts == seq![(st.0, st.1, st.2)] + rest);
            assert forall|k: int| 0 < k < ts.len() implies #[trigger] ts[k].1 == skip_trivia(
                s,
                ts[k - 1].2,
            ) by {
                assert(ts[k] == rest[k - 1]);
                if k > 1 {
                    assert(ts[k - 1] == rest[k - 2]);
                }
            }
            assert forall|k: int| 0 <= k < ts.len() implies #[trigger] ts[k].1 < ts[k].2 <= s.len()
                && (ts[k].0 == Token::Prologue ==> ts[k].1 + 4 <= ts[k].2) && (ts[k].0
                == Token::Epilogue ==> ts[k].1 + 2 <= ts[k].2) by {
                if k > 0 {
                    assert(ts[k] == rest[k - 1]);
                }
            }
            if rest.len() > 0 {
                assert(ts.last() == rest.last());
            }
        },
    }
}

/// Tokenizing always ends, and the tokens together with the blanks and
/// comments passed over between them cover the whole input, in order and
/// without overlap.
pub proof fn lemma_tokens_cover_input(s: Seq<char>)
    ensures
        covers(s, 0, tokens_of(s)),
{
    lemma_tokens_from_cover(s, 0, false);
}

/// Once the second `%%` has been read, the epilogue token runs to the end of
/// the input and no token follows it.
pub proof fn lemma_epilogue_is_last(s: Seq<char>)
    ensures
        forall|k: int|
            0 <= k < tokens_of(s).len() && (#[trigger] tokens_of(s)[k]).0 == Token::Epilogue ==> k
                == tokens_of(s).len() - 1 && tokens_of(s)[k].2 == s.len(),
{
    lemma_epilogue_last_from(s, 0, false);
}

proof fn lemma_epilogue_last_from(s: Seq<char>, pos: int, sep: bool)
    requires
        0 <= pos <= s.len(),
    ensures
        forall|k: int|
            0 <= k < tokens_from(s, pos, sep).len() && (#[trigger] tokens_from(s, pos, sep)[k]).0
                == Token::Epilogue ==> k == tokens_from(s, pos, sep).len() - 1 && tokens_from(
                s,
                pos,
                sep,
            )[k].2 == s.len(),
    decreases s.len() - pos,
{
    lemma_lex_step_advances(s, pos, sep);
    match lex_step(s, pos, sep) {
        None => {},
        Some(st) => {
            lemma_epilogue_last_from(s, st.2, st.3);
            let rest = tokens_from(s, st.2, st.3);
            let ts = tokens_from(s, pos, sep);
            assert(ts == seq![(st.0, st.1, st.2)] + rest);
            if st.0 == Token::Epilogue {
                assert(st.2 == s.len());
                lemma_skip_trivia_bounds(s, s.len() as int);
                assert(rest.len() == 0);
            }
            assert forall|k: int|
                0 <= k < ts.len() && (#[trigger] ts[k]).0 == Token::Epilogue implies k == ts.len()
                    - 1 && ts[k].2 == s.len() by {
                if k > 0 {
                    assert(ts[k] == rest[k - 1]);
                }
            }
        },
    }
}

/// A brace-balanced block is one code token, from its `{` through the `}`
/// that closes it, whatever braces it holds inside.
pub proof fn lemma_code_block_is_one_token(s: Seq<char>, pos: int, sep: bool, e: int)
    requires
        0 <= pos < s.len(),
        skip_trivia(s, pos) == pos,
        s[pos] == '{',
        brace_end(s, pos + 1, 1) == Some(e),
    ensures
        tokens_from(s, pos, sep).len() > 0,
        tokens_from(s, pos, sep)[0] == (Token::Code, pos, e),
{
    lemma_lex_step_advances(s, pos, sep);
}

/// No token is a `%%` separator.
pub open spec fn no_separator(ts: Seq<(Token, int, int)>) -> bool {
    forall|k: int| 0 <= k < ts.len() ==> (#[trigger] ts[k]).0 != Token::PercentPercent
}

/// At most one token is a `%%` separator.
pub open spec fn at_most_one_separator(ts: Seq<(Token, int, int)>) -> bool {
    forall|j: int, k: int|
        0 <= j < k < ts.len() && (#[trigger] ts[j]).0 == Token::PercentPercent ==> (
        #[trigger] ts[k]).0 != Token::PercentPercent
}

/// Read from the start, the tokens reach a `%%` separator before any
/// epilogue token.
pub open spec fn separator_before_epilogue(ts: Seq<(Token, int, int)>) -> bool
    decreases ts.len(),
{
    if ts.len() == 0 {
        true
    } else if ts[0].0 == Token::PercentPercent {
        true
    } else if ts[0].0 == Token::Epilogue {
        false
    } else {
        separator_before_epilogue(ts.drop_first())
    }
}

/// The first `%%` is a separator token and any later one is not: no two
/// separator tokens occur, and an epilogue token comes only after a separator.
pub proof fn lemma_separators(s: Seq<char>)
    ensures
        at_most_one_separator(tokens_of(s)),
        separator_before_epilogue(tokens_of(s)),
{
    lemma_separators_from(s, 0, false);
}

proof fn lemma_no_separator_cons(x: (Token, int, int), rest: Seq<(Token, int, int)>)
    requires
        x.0 != Token::PercentPercent,
        no_separator(rest),
    ensures
        no_separator(seq![x] + rest),
{
    let ts = seq![x] + rest;
    assert forall|k: int| 0 <= k < ts.len() implies (#[trigger] ts[k]).0 != Token::PercentPercent by {
        if k > 0 {
            assert(ts[k] == rest[k - 1]);
        }
    }
}

proof fn lemma_one_separator_cons(x: (Token, int, int), rest: Seq<(Token, int, int)>)
    requires
        x.0 == Token::PercentPercent ==> no_separator(rest),
        at_most_one_separator(rest),
    ensures
        at_most_one_separator(seq![x] + rest),
{
    let ts = seq![x] + rest;
    assert forall|j: int, k: int|
        0 <= j < k < ts.len() && (#[trigger] ts[j]).0 == Token::PercentPercent implies (
        #[trigger] ts[k]).0 != Token::PercentPercent by {
        assert(ts[k] == rest[k - 1]);
        if j > 0 {
            assert(ts[j] == rest[j - 1]);
            assert(rest[j - 1].0 == Token::PercentPercent);
        } else {
            assert(rest[k - 1].0 != Token::PercentPercent);
        }
    }
}

proof fn lemma_epilogue_cons(x: (Token, int, int), rest: Seq<(Token, int, int)>)
    requires
        x.0 != Token::Epilogue,
        x.0 != Token::PercentPercent ==> separator_before_epilogue(rest),
    ensures
        separator_before_epilogue(seq![x] + rest),
{
    assert((seq![x] + rest).drop_first() =~= rest);
}

proof fn lemma_separators_from(s: Seq<char>, pos: int, sep: bool)
    requires
        0 <= pos <= s.len(),
    ensures
        sep ==> no_separator(tokens_from(s, pos, sep)),
        at_most_one_separator(tokens_from(s, pos, sep)),
        !sep ==> separator_before_epilogue(tokens_from(s, pos, sep)),
    decreases s.len() - pos,
{
    lemma_lex_step_advances(s, pos, sep);
    match lex_step(s, pos, sep) {
        None => {},
        Some(st) => {
            lemma_separators_from(s, st.2, st.3);
            let x = (st.0, st.1, st.2);
            let rest = tokens_from(s, st.2, st.3);
            assert(tokens_from(s, pos, sep) == seq![x] + rest);
            if sep {
                lemma_no_separator_cons(x, rest);
            }
            lemma_one_separator_cons(x, rest);
            if !sep {
                lemma_epilogue_cons(x, rest);
            }
        },
    }
}

} // verus!
