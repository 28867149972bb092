use vstd::prelude::*;

use crate::text::{
    char_is_alphabetic, char_is_numeric, char_is_whitespace, chars_of, digits_value,
    is_alphabetic, is_alphanumeric, is_ascii_letter, is_digit, is_whitespace, range_equals,
    string_of_range,
};

verus! {

/// The kinds of token the lexer produces.
#[derive(Debug, Clone, Copy, PartialEq, Eq, Structural)]
pub enum SymbolKind {
    Smi,
    Add,
    Sub,
    Mul,
    Div,
    LPar,
    RPar,
    LBrace,
    RBrace,
    Assign,
    Comma,
    Semi,
    Ident,
    Let,
    Const,
    Var,
    Function,
    Return,
    Eof,
    Lt,
    Gt,
    Equal,
    NotEqual,
    Lte,
    Gte,
    And,
    Or,
    Not,
    If,
    Else,
    Str,
    While,
    For,
}

/// The text a token kind prints as.
pub open spec fn kind_text(k: SymbolKind) -> Seq<char> {
    match k {
        SymbolKind::Smi => "SMI"@,
        SymbolKind::Add => "+"@,
        SymbolKind::Sub => "-"@,
        SymbolKind::Mul => "*"@,
        SymbolKind::Div => "/"@,
        SymbolKind::LPar => "("@,
        SymbolKind::RPar => ")"@,
        SymbolKind::LBrace => "{"@,
        SymbolKind::RBrace => "}"@,
        SymbolKind::Assign => "="@,
        SymbolKind::Comma => ","@,
        SymbolKind::Semi => ";"@,
        SymbolKind::Ident => "IDENT"@,
        SymbolKind::Let => "let"@,
        SymbolKind::Const => "const"@,
        SymbolKind::Var => "var"@,
        SymbolKind::Function => "function"@,
        SymbolKind::Return => "return"@,
        SymbolKind::Eof => "EOF"@,
        SymbolKind::Lt => "<"@,
        SymbolKind::Gt => ">"@,
        SymbolKind::Equal => "=="@,
        SymbolKind::NotEqual => "!="@,
        SymbolKind::Lte => "<="@,
        SymbolKind::Gte => ">="@,
        SymbolKind::And => "&&"@,
        SymbolKind::Or => "||"@,
        SymbolKind::Not => "!"@,
        SymbolKind::If => "IF"@,
        SymbolKind::Else => "ELSE"@,
        SymbolKind::Str => "STR"@,
        SymbolKind::While => "WHILE"@,
        SymbolKind::For => "FOR"@,
    }
}

impl SymbolKind {
    /// The text this kind prints as.
    pub fn display(self) -> (r: &'static str)
        ensures
            r@ == kind_text(self),
    {
        match self {
            SymbolKind::Smi => "SMI",
            SymbolKind::Add => "+",
            SymbolKind::Sub => "-",
            SymbolKind::Mul => "*",
            SymbolKind::Div => "/",
            SymbolKind::LPar => "(",
            SymbolKind::RPar => ")",
            SymbolKind::LBrace => "{",
            SymbolKind::RBrace => "}",
            SymbolKind::Assign => "=",
            SymbolKind::Comma => ",",
            SymbolKind::Semi => ";",
            SymbolKind::Ident => "IDENT",
            SymbolKind::Let => "let",
            SymbolKind::Const => "const",
            SymbolKind::Var => "var",
            SymbolKind::Function => "function",
            SymbolKind::Return => "return",
            SymbolKind::Eof => "EOF",
            SymbolKind::Lt => "<",
            SymbolKind::Gt => ">",
            SymbolKind::Equal => "==",
            SymbolKind::NotEqual => "!=",
            SymbolKind::Lte => "<=",
            SymbolKind::Gte => ">=",
            SymbolKind::And => "&&",
            SymbolKind::Or => "||",
            SymbolKind::Not => "!",
            SymbolKind::If => "IF",
            SymbolKind::Else => "ELSE",
            SymbolKind::Str => "STR",
            SymbolKind::While => "WHILE",
            SymbolKind::For => "FOR",
        }
    }
}

/// A token: its kind, the value of an integer literal, and the text of an
/// identifier or string literal (empty for every other kind).
#[derive(Debug, PartialEq, Eq)]
pub struct Symbol {
    pub kind: SymbolKind,
    pub int_val: Option<i64>,
    pub str_val: String,
}

/// The mathematical form of a token: the text is a sequence of characters.
pub struct SpecSymbol {
    pub kind: SymbolKind,
    pub int_val: Option<i64>,
    pub text: Seq<char>,
}

impl View for Symbol {
    type V = SpecSymbol;

    open spec fn view(&self) -> SpecSymbol {
        SpecSymbol { kind: self.kind, int_val: self.int_val, text: self.str_val@ }
    }
}

/// The views of a sequence of tokens.
pub open spec fn symbols_view(s: Seq<Symbol>) -> Seq<SpecSymbol> {
    s.map_values(|x: Symbol| x@)
}

impl Symbol {
    /// A token of the given kind that carries no value and no text.
    pub fn plain(kind: SymbolKind) -> (s: Symbol)
        ensures
            s@ == plain_symbol(kind),
    {
        Symbol { kind, int_val: None, str_val: String::new() }
    }

    /// A copy of this token.
    pub fn duplicate(&self) -> (s: Symbol)
        ensures
            s@ == self@,
    {
        Symbol { kind: self.kind, int_val: self.int_val, str_val: self.str_val.clone() }
    }
}

/// The view of a token of the given kind with no value and no text.
pub open spec fn plain_symbol(kind: SymbolKind) -> SpecSymbol {
    SpecSymbol { kind, int_val: None, text: Seq::empty() }
}

/// The token kind of a single-character punctuator, if `c` is one.
pub open spec fn single_char_kind(c: char) -> Option<SymbolKind> {
    if c == '+' {
        Some(SymbolKind::Add)
    } else if c == '-' {
        Some(SymbolKind::Sub)
    } else if c == '*' {
        Some(SymbolKind::Mul)
    } else if c == '/' {
        Some(SymbolKind::Div)
    } else if c == '(' {
        Some(SymbolKind::LPar)
    } else if c == ')' {
        Some(SymbolKind::RPar)
    } else if c == '{' {
        Some(SymbolKind::LBrace)
    } else if c == '}' {
        Some(SymbolKind::RBrace)
    } else if c == ',' {
        Some(SymbolKind::Comma)
    } else if c == ';' {
        Some(SymbolKind::Semi)
    } else {
        None
    }
}

/// The keyword that `word` spells, if any.
pub open spec fn keyword_kind(word: Seq<char>) -> Option<SymbolKind> {
    if word == seq!['l', 'e', 't'] {
        Some(SymbolKind::Let)
    } else if word == seq!['c', 'o', 'n', 's', 't'] {
        Some(SymbolKind::Const)
    } else if word == seq!['v', 'a', 'r'] {
        Some(SymbolKind::Var)
    } else if word == seq!['i', 'f'] {
        Some(SymbolKind::If)
    } else if word == seq!['e', 'l', 's', 'e'] {
        Some(SymbolKind::Else)
    } else if word == seq!['w', 'h', 'i', 'l', 'e'] {
        Some(SymbolKind::While)
    } else if word == seq!['f', 'o', 'r'] {
        Some(SymbolKind::For)
    } else if word == seq!['f', 'u', 'n', 'c', 't', 'i', 'o', 'n'] {
        Some(SymbolKind::Function)
    } else if word == seq!['r', 'e', 't', 'u', 'r', 'n'] {
        Some(SymbolKind::Return)
    } else {
        None
    }
}

/// The token for an identifier-like word: a keyword, or an identifier carrying its text.
pub open spec fn word_symbol(word: Seq<char>) -> SpecSymbol {
    match keyword_kind(word) {
        Some(k) => plain_symbol(k),
        None => SpecSymbol { kind: SymbolKind::Ident, int_val: None, text: word },
    }
}

/// A character that may start an identifier: an underscore or an alphabetic
/// character, which among ASCII characters means a letter.
pub open spec fn ident_start(c: char) -> bool {
    if (c as u32) < 128 {
        is_ascii_letter(c) || c == '_'
    } else {
        char_is_alphabetic(c)
    }
}

/// A character that may continue an identifier: an underscore or an
/// alphanumeric character, which among ASCII characters means a letter or a digit.
pub open spec fn ident_part(c: char) -> bool {
    if (c as u32) < 128 {
        is_ascii_letter(c) || is_digit(c) || c == '_'
    } else {
        char_is_alphabetic(c) || char_is_numeric(c)
    }
}

/// The end of the run of digits that starts at `k`.
pub open spec fn digit_run_end(cs: Seq<char>, k: int) -> int
    decreases cs.len() - k,
{
    if 0 <= k < cs.len() && is_digit(cs[k]) {
        digit_run_end(cs, k + 1)
    } else {
        k
    }
}

/// The end of the run of identifier characters that starts at `k`.
pub open spec fn ident_run_end(cs: Seq<char>, k: int) -> int
    decreases cs.len() - k,
{
    if 0 <= k < cs.len() && ident_part(cs[k]) {
        ident_run_end(cs, k + 1)
    } else {
        k
    }
}

/// The position of the first double quote at or after `k`, or the length of `cs`.
pub open spec fn quote_end(cs: Seq<char>, k: int) -> int
    decreases cs.len() - k,
{
    if 0 <= k < cs.len() && cs[k] != '"' {
        quote_end(cs, k + 1)
    } else {
        k
    }
}

/// One step of the lexer at position `i`: the token read there (none for
/// white space) and the position after it; `None` where the input cannot be read.
pub open spec fn scan(cs: Seq<char>, i: int) -> Option<(Option<SpecSymbol>, int)> {
    let c = cs[i];
    let next_is_eq = i + 1 < cs.len() && cs[i + 1] == '=';
    if char_is_whitespace(c) {
        Some((None, i + 1))
    } else if single_char_kind(c) is Some {
        Some((Some(plain_symbol(single_char_kind(c)->0)), i + 1))
    } else if c == '<' {
        if next_is_eq {
            Some((Some(plain_symbol(SymbolKind::Lte)), i + 2))
        } else {
            Some((Some(plain_symbol(SymbolKind::Lt)), i + 1))
        }
    } else if c == '>' {
        if next_is_eq {
            Some((Some(plain_symbol(SymbolKind::Gte)), i + 2))
        } else {
            Some((Some(plain_symbol(SymbolKind::Gt)), i + 1))
        }
    } else if c == '!' {
        if next_is_eq {
            Some((Some(plain_symbol(SymbolKind::NotEqual)), i + 2))
        } else {
            Some((Some(plain_symbol(SymbolKind::Not)), i + 1))
        }
    } else if c == '&' {
        if i + 1 < cs.len() && cs[i + 1] == '&' {
            Some((Some(plain_symbol(SymbolKind::And)), i + 2))
        } else {
            None
        }
    } else if c == '|' {
        if i + 1 < cs.len() && cs[i + 1] == '|' {
            Some((Some(plain_symbol(SymbolKind::Or)), i + 2))
        } else {
            None
        }
    } else if c == '=' {
        if i + 1 >= cs.len() {
            None
        } else if cs[i + 1] == '=' {
            Some((Some(plain_symbol(SymbolKind::Equal)), i + 2))
        } else {
            Some((Some(plain_symbol(SymbolKind::Assign)), i + 1))
        }
    } else if c == '"' {
        let close = quote_end(cs, i + 1);
        if close >= cs.len() {
            None
        } else {
            Some(
                (
                    Some(
                        SpecSymbol {
                            kind: SymbolKind::Str,
                            int_val: None,
                            text: cs.subrange(i + 1, close),
                        },
                    ),
                    close + 1,
                ),
            )
        }
    } else if is_digit(c) {
        let end = digit_run_end(cs, i);
        let n = digits_value(cs.subrange(i, end));
        if n > i64::MAX {
            None
        } else {
            Some((Some(SpecSymbol { kind: SymbolKind::Smi, int_val: Some(n as i64), text: Seq::empty() }), end))
        }
    } else if ident_start(c) {
        let end = ident_run_end(cs, i);
        Some((Some(word_symbol(cs.subrange(i, end))), end))
    } else {
        None
    }
}

/// The tokens of `cs[i..]` appended to `acc`; `None` if some character cannot be read.
pub open spec fn lex_from(cs: Seq<char>, i: int, acc: Seq<SpecSymbol>) -> Option<Seq<SpecSymbol>>
    decreases cs.len() - i,
{
    if i < 0 || i >= cs.len() {
        Some(acc)
    } else {
        match scan(cs, i) {
            None => None,
            Some((t, j)) => if j <= i || j > cs.len() {
                None
            } else {
                match t {
                    Some(sym) => lex_from(cs, j, acc.push(sym)),
                    None => lex_from(cs, j, acc),
                }
            },
        }
    }
}

/// The tokens of a source text, or `None` where the lexer rejects it: a character
/// that starts no token, a lone `&` or `|`, an `=` at the very end, an unterminated
/// string literal, or an integer literal above `i64::MAX`.
pub open spec fn lex_spec(src: Seq<char>) -> Option<Seq<SpecSymbol>> {
    lex_from(src, 0, Seq::empty())
}

proof fn lemma_digit_run_end(cs: Seq<char>, k: int)
    requires
        0 <= k <= cs.len(),
    ensures
        k <= digit_run_end(cs, k) <= cs.len(),
        forall|j: int| k <= j < digit_run_end(cs, k) ==> is_digit(#[trigger] cs[j]),
        digit_run_end(cs, k) < cs.len() ==> !is_digit(cs[digit_run_end(cs, k)]),
    decreases cs.len() - k,
{
    if k < cs.len() && is_digit(cs[k]) {
        lemma_digit_run_end(cs, k + 1);
    }
}

proof fn lemma_ident_run_end(cs: Seq<char>, k: int)
    requires
        0 <= k <= cs.len(),
    ensures
        k <= ident_run_end(cs, k) <= cs.len(),
        ident_run_end(cs, k) < cs.len() ==> !ident_part(cs[ident_run_end(cs, k)]),
        forall|j: int| k <= j < ident_run_end(cs, k) ==> ident_part(#[trigger] cs[j]),
    decreases cs.len() - k,
{
    if k < cs.len() && ident_part(cs[k]) {
        lemma_ident_run_end(cs, k + 1);
    }
}

proof fn lemma_quote_end(cs: Seq<char>, k: int)
    requires
        0 <= k <= cs.len(),
    ensures
        k <= quote_end(cs, k) <= cs.len(),
        quote_end(cs, k) < cs.len() ==> cs[quote_end(cs, k)] == '"',
        forall|j: int| k <= j < quote_end(cs, k) ==> #[trigger] cs[j] != '"',
    decreases cs.len() - k,
{
    if k < cs.len() && cs[k] != '"' {
        lemma_quote_end(cs, k + 1);
    }
}

/// Reading further digits never makes a number smaller.
proof fn lemma_digits_value_prefix(s: Seq<char>, k: int)
    requires
        0 <= k <= s.len(),
        forall|j: int| 0 <= j < s.len() ==> is_digit(#[trigger] s[j]),
    ensures
        0 <= digits_value(s.take(k)) <= digits_value(s),
    decreases s.len(),
{
    if s.len() == 0 {
    } else if k == s.len() {
        assert(s.take(k) =~= s);
        lemma_digits_value_prefix(s.drop_last(), k - 1);
        assert(s.drop_last().take(k - 1) =~= s.drop_last());
    } else {
        lemma_digits_value_prefix(s.drop_last(), k);
        assert(s.drop_last().take(k) =~= s.take(k));
        lemma_digits_value_prefix(s.drop_last(), s.len() - 1);
        assert(s.drop_last().take(s.len() - 1) =~= s.drop_last());
        assert(is_digit(s.last()));
    }
}

/// What every token the lexer produces satisfies: it is never `Eof`; it
/// carries an integer exactly when it is a Smi, and that integer is not
/// negative; an identifier's text is a non-empty run of identifier
/// characters that starts like an identifier and is no keyword; every kind
/// but identifiers and strings carries no text.
pub open spec fn token_well_formed(t: SpecSymbol) -> bool {
    &&& t.kind != SymbolKind::Eof
    &&& (t.int_val is Some <==> t.kind == SymbolKind::Smi)
    &&& (t.kind == SymbolKind::Smi ==> t.int_val->0 >= 0)
    &&& (t.kind == SymbolKind::Ident ==> {
        &&& t.text.len() > 0
        &&& ident_start(t.text[0])
        &&& forall|j: int| 0 <= j < t.text.len() ==> ident_part(#[trigger] t.text[j])
        &&& keyword_kind(t.text) is None
    })
    &&& (t.kind != SymbolKind::Ident && t.kind != SymbolKind::Str ==> t.text.len() == 0)
}

proof fn lemma_scan_well_formed(cs: Seq<char>, i: int)
    requires
        0 <= i < cs.len(),
        scan(cs, i) matches Some((Some(_), _)),
    ensures
        token_well_formed((scan(cs, i)->0).0->0),
{
    let c = cs[i];
    if !char_is_whitespace(c) && single_char_kind(c) is None && c != '<' && c != '>' && c != '!' && c != '&'
        && c != '|' && c != '=' && c != '"' {
        if is_digit(c) {
            lemma_digit_run_end(cs, i);
            let end = digit_run_end(cs, i);
            let run = cs.subrange(i, end);
            assert forall|j: int| 0 <= j < run.len() implies is_digit(#[trigger] run[j]) by {
                assert(run[j] == cs[i + j]);
            }
            lemma_digits_value_prefix(run, 0);
        } else if ident_start(c) {
            lemma_ident_run_end(cs, i);
            let end = ident_run_end(cs, i);
            let word = cs.subrange(i, end);
            assert(ident_part(c));
            assert(word[0] == c);
            assert forall|j: int| 0 <= j < word.len() implies ident_part(#[trigger] word[j]) by {
                assert(word[j] == cs[i + j]);
            }
        }
    }
}

proof fn lemma_lex_from_well_formed(cs: Seq<char>, i: int, acc: Seq<SpecSymbol>)
    requires
        forall|k: int| 0 <= k < acc.len() ==> token_well_formed(#[trigger] acc[k]),
        lex_from(cs, i, acc) is Some,
    ensures
        forall|k: int| 0 <= k < lex_from(cs, i, acc)->0.len() ==> token_well_formed(
            #[trigger] lex_from(cs, i, acc)->0[k],
        ),
    decreases cs.len() - i,
{
    if 0 <= i < cs.len() {
        let (t, j) = scan(cs, i)->0;
        match t {
            Some(sym) => {
                lemma_scan_well_formed(cs, i);
                let acc2 = acc.push(sym);
                assert forall|k: int| 0 <= k < acc2.len() implies token_well_formed(#[trigger] acc2[k]) by {
                    if k < acc.len() {
                        assert(acc2[k] == acc[k]);
                    }
                }
                lemma_lex_from_well_formed(cs, j, acc2);
            },
            None => {
                lemma_lex_from_well_formed(cs, j, acc);
            },
        }
    }
}

/// Every token of an accepted source is well formed.
pub proof fn lemma_tokens_well_formed(src: Seq<char>)
    requires
        lex_spec(src) is Some,
    ensures
        forall|k: int| 0 <= k < lex_spec(src)->0.len() ==> token_well_formed(#[trigger] lex_spec(src)->0[k]),
{
    lemma_lex_from_well_formed(src, 0, Seq::empty());
}

/// A word is read whole: where the lexer reads a word at `i` (a character
/// that may start an identifier and is not white space), the word runs over identifier characters
/// only and stops at the end of the text or at the first character that
/// cannot continue an identifier; its token is the keyword it spells, or an
/// identifier with exactly that text.
pub proof fn lemma_words_are_maximal(cs: Seq<char>, i: int)
    requires
        0 <= i < cs.len(),
        ident_start(cs[i]),
        !char_is_whitespace(cs[i]),
    ensures
        scan(cs, i) matches Some((Some(t), j)) && {
            &&& i < j <= cs.len()
            &&& t == word_symbol(cs.subrange(i, j))
            &&& forall|k: int| i <= k < j ==> ident_part(#[trigger] cs[k])
            &&& (j == cs.len() || !ident_part(cs[j]))
        },
{
    lemma_ident_run_end(cs, i);
    assert(ident_part(cs[i]));
}

/// `text` stands in `cs` as a whole word: it is `cs[i..j]` for some `i < j`;
/// the character after it, if any, cannot continue an identifier; and the
/// character before it, if any, cannot continue an identifier, or is a digit
/// (which ends the number before it) or white space.
pub open spec fn whole_word(cs: Seq<char>, text: Seq<char>) -> bool {
    exists|i: int, j: int|
        0 <= i < j <= cs.len() && #[trigger] cs.subrange(i, j) == text && (j == cs.len() || !ident_part(cs[j])) && (i
            == 0 || !ident_part(cs[i - 1]) || is_digit(cs[i - 1]) || char_is_whitespace(cs[i - 1]))
}

/// Where a token boundary at `i` meets an identifier character, the
/// character before the boundary is one a word may follow.
spec fn word_may_start(cs: Seq<char>, i: int) -> bool {
    i <= 0 || i >= cs.len() || !ident_part(cs[i]) || !ident_part(cs[i - 1]) || is_digit(cs[i - 1])
        || char_is_whitespace(cs[i - 1])
}

/// A punctuation character cannot continue an identifier.
proof fn lemma_punctuation_ends_words(c: char)
    requires
        single_char_kind(c) is Some || c == '<' || c == '>' || c == '!' || c == '&' || c == '|' || c == '='
            || c == '"',
    ensures
        !ident_part(c),
{
}

proof fn lemma_scan_boundary(cs: Seq<char>, i: int)
    requires
        0 <= i < cs.len(),
        word_may_start(cs, i),
        scan(cs, i) is Some,
    ensures
        word_may_start(cs, (scan(cs, i)->0).1),
        (scan(cs, i)->0).0 is Some && (scan(cs, i)->0).0->0.kind == SymbolKind::Ident ==> whole_word(
            cs,
            (scan(cs, i)->0).0->0.text,
        ),
{
    let c = cs[i];
    let j = (scan(cs, i)->0).1;
    if char_is_whitespace(c) {
    } else if single_char_kind(c) is Some || c == '<' || c == '>' || c == '!' || c == '&' || c == '|' || c
        == '=' {
        lemma_punctuation_ends_words(cs[j - 1]);
    } else if c == '"' {
        lemma_quote_end(cs, i + 1);
        lemma_punctuation_ends_words(cs[j - 1]);
    } else if is_digit(c) {
        lemma_digit_run_end(cs, i);
        assert(is_digit(cs[j - 1]));
    } else if ident_start(c) {
        lemma_ident_run_end(cs, i);
        assert(ident_part(c));
        let t = (scan(cs, i)->0).0->0;
        if t.kind == SymbolKind::Ident {
            assert(t.text == cs.subrange(i, j));
            assert(0 <= i < j <= cs.len() && cs.subrange(i, j) == t.text && (j == cs.len() || !ident_part(cs[j]))
                && (i == 0 || !ident_part(cs[i - 1]) || is_digit(cs[i - 1]) || char_is_whitespace(cs[i - 1])));
        }
    }
}

proof fn lemma_lex_from_whole_words(cs: Seq<char>, i: int, acc: Seq<SpecSymbol>)
    requires
        word_may_start(cs, i),
        forall|k: int| 0 <= k < acc.len() && (#[trigger] acc[k]).kind == SymbolKind::Ident ==> whole_word(cs, acc[k].text),
        lex_from(cs, i, acc) is Some,
    ensures
        forall|k: int|
            0 <= k < lex_from(cs, i, acc)->0.len() && (#[trigger] lex_from(cs, i, acc)->0[k]).kind == SymbolKind::Ident
                ==> whole_word(cs, lex_from(cs, i, acc)->0[k].text),
    decreases cs.len() - i,
{
    if 0 <= i < cs.len() {
        let (t, j) = scan(cs, i)->0;
        lemma_scan_boundary(cs, i);
        match t {
            Some(sym) => {
                let acc2 = acc.push(sym);
                assert forall|k: int| 0 <= k < acc2.len() && (#[trigger] acc2[k]).kind == SymbolKind::Ident implies whole_word(
                    cs,
                    acc2[k].text,
                ) by {
                    if k < acc.len() {
                        assert(acc2[k] == acc[k]);
                    }
                }
                lemma_lex_from_whole_words(cs, j, acc2);
            },
            None => {
                lemma_lex_from_whole_words(cs, j, acc);
            },
        }
    }
}

/// Every identifier the lexer produces is a whole word of the source: a
/// maximal run of identifier characters, cut short on the left only where a
/// number ends right before it.
pub proof fn lemma_identifiers_are_whole_words(src: Seq<char>)
    requires
        lex_spec(src) is Some,
    ensures
        forall|k: int|
            0 <= k < lex_spec(src)->0.len() && (#[trigger] lex_spec(src)->0[k]).kind == SymbolKind::Ident ==> whole_word(
                src,
                lex_spec(src)->0[k].text,
            ),
{
    lemma_lex_from_whole_words(src, 0, Seq::empty());
}

/// White space separates tokens and is otherwise ignored: at any of the
/// Unicode White_Space characters (tab, line feed, vertical tab, form feed,
/// carriage return, space, next line, no-break space, ogham space mark, the
/// spaces U+2000 to U+200A, the line and paragraph separators, narrow
/// no-break space, medium mathematical space, ideographic space) the lexer
/// reads no token, moves one character on, and produces from there exactly
/// what it produces from the next character.
pub proof fn lemma_white_space_is_skipped(cs: Seq<char>, i: int, acc: Seq<SpecSymbol>)
    requires
        0 <= i < cs.len(),
        ({
            let u = cs[i] as u32;
            ||| cs[i] == '\t' || cs[i] == '\n' || cs[i] == '\x0b' || cs[i] == '\x0c' || cs[i] == '\r' || cs[i] == ' '
            ||| u == 0x85 || u == 0xa0 || u == 0x1680 || (0x2000 <= u && u <= 0x200a)
            ||| u == 0x2028 || u == 0x2029 || u == 0x202f || u == 0x205f || u == 0x3000
        }),
    ensures
        scan(cs, i) == Some((None::<SpecSymbol>, i + 1)),
        lex_from(cs, i, acc) == lex_from(cs, i + 1, acc),
{
}

/// An operator, punctuator or lower-case keyword token spells itself: the
/// characters the lexer consumed for it are exactly the text its kind
/// prints as (so `<=` is read as `<=`, never as `<` or `>=`, and `let` as
/// `let`).
pub proof fn lemma_tokens_spell_their_kind(cs: Seq<char>, i: int)
    requires
        0 <= i < cs.len(),
        scan(cs, i) matches Some((Some(t), _)) && t.kind != SymbolKind::Smi && t.kind != SymbolKind::Ident
            && t.kind != SymbolKind::Str && t.kind != SymbolKind::If && t.kind != SymbolKind::Else && t.kind
            != SymbolKind::While && t.kind != SymbolKind::For,
    ensures
        kind_text((scan(cs, i)->0).0->0.kind) == cs.subrange(i, (scan(cs, i)->0).1),
{
    reveal_strlit("+");
    reveal_strlit("-");
    reveal_strlit("*");
    reveal_strlit("/");
    reveal_strlit("(");
    reveal_strlit(")");
    reveal_strlit("{");
    reveal_strlit("}");
    reveal_strlit("=");
    reveal_strlit(",");
    reveal_strlit(";");
    reveal_strlit("let");
    reveal_strlit("const");
    reveal_strlit("var");
    reveal_strlit("function");
    reveal_strlit("return");
    reveal_strlit("<");
    reveal_strlit(">");
    reveal_strlit("==");
    reveal_strlit("!=");
    reveal_strlit("<=");
    reveal_strlit(">=");
    reveal_strlit("&&");
    reveal_strlit("||");
    reveal_strlit("!");
    let c = cs[i];
    let j = (scan(cs, i)->0).1;
    let k = (scan(cs, i)->0).0->0.kind;
    if !char_is_whitespace(c) && single_char_kind(c) is None && c != '<' && c != '>' && c != '!' && c != '&'
        && c != '|' && c != '=' && c != '"' && !is_digit(c) {
        lemma_ident_run_end(cs, i);
        assert(cs.subrange(i, j) == keyword_spelled(k));
        assert(kind_text(k) =~= keyword_spelled(k));
    } else {
        assert(kind_text(k) =~= cs.subrange(i, j));
    }
}

/// The spelling of a lower-case keyword kind.
spec fn keyword_spelled(k: SymbolKind) -> Seq<char> {
    match k {
        SymbolKind::Let => seq!['l', 'e', 't'],
        SymbolKind::Const => seq!['c', 'o', 'n', 's', 't'],
        SymbolKind::Var => seq!['v', 'a', 'r'],
        SymbolKind::Function => seq!['f', 'u', 'n', 'c', 't', 'i', 'o', 'n'],
        SymbolKind::Return => seq!['r', 'e', 't', 'u', 'r', 'n'],
        _ => Seq::empty(),
    }
}

/// Reads an integer literal `cs[start..end]`; `None` where it exceeds `i64::MAX`.
fn read_number(cs: &Vec<char>, start: usize, end: usize) -> (r: Option<i64>)
    requires
        start <= end <= cs.len(),
        forall|j: int| start <= j < end ==> is_digit(#[trigger] cs@[j]),
    ensures
        match r {
            Some(n) => n == digits_value(cs@.subrange(start as int, end as int)),
            None => digits_value(cs@.subrange(start as int, end as int)) > i64::MAX,
        },
{
    let ghost s = cs@.subrange(start as int, end as int);
    let mut n: i64 = 0;
    let mut k = start;
    while k < end
        invariant
            start <= k <= end <= cs.len(),
            s == cs@.subrange(start as int, end as int),
            forall|j: int| start <= j < end ==> is_digit(#[trigger] cs@[j]),
            n == digits_value(s.take(k - start)),
        decreases end - k,
    {
        let d = cs[k];
        assert(is_digit(s[k - start]));
        assert(s.take(k - start + 1).drop_last() =~= s.take(k - start));
        let dv = (d as u32 - '0' as u32) as i64;
        match n.checked_mul(10) {
            None => {
                proof {
                    lemma_digits_value_prefix(s, k - start + 1);
                }
                return None;
            },
            Some(m) => match m.checked_add(dv) {
                None => {
                    proof {
                        lemma_digits_value_prefix(s, k - start + 1);
                    }
                    return None;
                },
                Some(v) => {
                    n = v;
                },
            },
        }
        k += 1;
    }
    assert(s.take(end - start) =~= s);
    Some(n)
}

/// The keyword kinds, each with its spelling.
fn keyword_of(cs: &Vec<char>, start: usize, end: usize) -> (r: Option<SymbolKind>)
    requires
        start <= end <= cs.len(),
    ensures
        r == keyword_kind(cs@.subrange(start as int, end as int)),
{
    let ghost w = cs@.subrange(start as int, end as int);
    if range_equals(cs, start, end, &['l', 'e', 't']) {
        assert(w == seq!['l', 'e', 't']);
        Some(SymbolKind::Let)
    } else if range_equals(cs, start, end, &['c', 'o', 'n', 's', 't']) {
        Some(SymbolKind::Const)
    } else if range_equals(cs, start, end, &['v', 'a', 'r']) {
        Some(SymbolKind::Var)
    } else if range_equals(cs, start, end, &['i', 'f']) {
        Some(SymbolKind::If)
    } else if range_equals(cs, start, end, &['e', 'l', 's', 'e']) {
        Some(SymbolKind::Else)
    } else if range_equals(cs, start, end, &['w', 'h', 'i', 'l', 'e']) {
        Some(SymbolKind::While)
    } else if range_equals(cs, start, end, &['f', 'o', 'r']) {
        Some(SymbolKind::For)
    } else if range_equals(cs, start, end, &['f', 'u', 'n', 'c', 't', 'i', 'o', 'n']) {
        Some(SymbolKind::Function)
    } else if range_equals(cs, start, end, &['r', 'e', 't', 'u', 'r', 'n']) {
        Some(SymbolKind::Return)
    } else {
        None
    }
}

/// The single-character punctuator kind of `c`, if any.
fn single_char_of(c: char) -> (r: Option<SymbolKind>)
    ensures
        r == single_char_kind(c),
{
    if c == '+' {
        Some(SymbolKind::Add)
    } else if c == '-' {
        Some(SymbolKind::Sub)
    } else if c == '*' {
        Some(SymbolKind::Mul)
    } else if c == '/' {
        Some(SymbolKind::Div)
    } else if c == '(' {
        Some(SymbolKind::LPar)
    } else if c == ')' {
        Some(SymbolKind::RPar)
    } else if c == '{' {
        Some(SymbolKind::LBrace)
    } else if c == '}' {
        Some(SymbolKind::RBrace)
    } else if c == ',' {
        Some(SymbolKind::Comma)
    } else if c == ';' {
        Some(SymbolKind::Semi)
    } else {
        None
    }
}

/// One step of the lexer at `i`, as `scan` describes it.
fn scan_at(cs: &Vec<char>, i: usize) -> (r: Option<(Option<Symbol>, usize)>)
    requires
        i < cs.len(),
    ensures
        match r {
            None => scan(cs@, i as int) is None,
            Some((t, j)) => {
                &&& scan(cs@, i as int) matches Some((st, sj))
                &&& sj == j
                &&& i < j <= cs.len()
                &&& match t {
                    None => st is None,
                    Some(sym) => st == Some(sym@),
                }
            },
        },
{
    let c = cs[i];
    let next_is_eq = i + 1 < cs.len() && cs[i + 1] == '=';
    if is_whitespace(c) {
        return Some((None, i + 1));
    }
    if let Some(k) = single_char_of(c) {
        return Some((Some(Symbol::plain(k)), i + 1));
    }
    if c == '<' {
        if next_is_eq {
            Some((Some(Symbol::plain(SymbolKind::Lte)), i + 2))
        } else {
            Some((Some(Symbol::plain(SymbolKind::Lt)), i + 1))
        }
    } else if c == '>' {
        if next_is_eq {
            Some((Some(Symbol::plain(SymbolKind::Gte)), i + 2))
        } else {
            Some((Some(Symbol::plain(SymbolKind::Gt)), i + 1))
        }
    } else if c == '!' {
        if next_is_eq {
            Some((Some(Symbol::plain(SymbolKind::NotEqual)), i + 2))
        } else {
            Some((Some(Symbol::plain(SymbolKind::Not)), i + 1))
        }
    } else if c == '&' {
        if i + 1 < cs.len() && cs[i + 1] == '&' {
            Some((Some(Symbol::plain(SymbolKind::And)), i + 2))
        } else {
            None
        }
    } else if c == '|' {
        if i + 1 < cs.len() && cs[i + 1] == '|' {
            Some((Some(Symbol::plain(SymbolKind::Or)), i + 2))
        } else {
            None
        }
    } else if c == '=' {
        if i + 1 >= cs.len() {
            None
        } else if cs[i + 1] == '=' {
            Some((Some(Symbol::plain(SymbolKind::Equal)), i + 2))
        } else {
            Some((Some(Symbol::plain(SymbolKind::Assign)), i + 1))
        }
    } else if c == '"' {
        let mut k = i + 1;
        proof {
            lemma_quote_end(cs@, k as int);
        }
        while k < cs.len() && cs[k] != '"'
            invariant
                i + 1 <= k <= cs.len(),
                quote_end(cs@, k as int) == quote_end(cs@, i + 1),
            decreases cs.len() - k,
        {
            k += 1;
        }
        if k >= cs.len() {
            None
        } else {
            let text = string_of_range(cs, i + 1, k);
            Some((Some(Symbol { kind: SymbolKind::Str, int_val: None, str_val: text }), k + 1))
        }
    } else if '0' <= c && c <= '9' {
        let mut k = i;
        proof {
            lemma_digit_run_end(cs@, i as int);
        }
        while k < cs.len() && '0' <= cs[k] && cs[k] <= '9'
            invariant
                i <= k <= cs.len(),
                digit_run_end(cs@, k as int) == digit_run_end(cs@, i as int),
            decreases cs.len() - k,
        {
            k += 1;
        }
        proof {
            lemma_digit_run_end(cs@, i as int);
        }
        match read_number(cs, i, k) {
            None => None,
            Some(n) => Some(
                (Some(Symbol { kind: SymbolKind::Smi, int_val: Some(n), str_val: String::new() }), k),
            ),
        }
    } else if is_alphabetic(c) || c == '_' {
        let mut k = i;
        proof {
            lemma_ident_run_end(cs@, i as int);
        }
        while k < cs.len() && (is_alphanumeric(cs[k]) || cs[k] == '_')
            invariant
                i <= k <= cs.len(),
                ident_run_end(cs@, k as int) == ident_run_end(cs@, i as int),
            decreases cs.len() - k,
        {
            k += 1;
        }
        proof {
            lemma_ident_run_end(cs@, i as int);
        }
        assert(k > i);
        Some((Some(Lexer::word_token(cs, i, k)), k))
    } else {
        None
    }
}

/// The tokens of `cs`, or `None` exactly where `lex_spec` rejects the text.
fn lex_chars(cs: &Vec<char>) -> (r: Option<Vec<Symbol>>)
    ensures
        match r {
            None => lex_spec(cs@) is None,
            Some(v) => lex_spec(cs@) == Some(symbols_view(v@)),
        },
{
    let mut res: Vec<Symbol> = Vec::new();
    let mut i: usize = 0;
    assert(symbols_view(res@) =~= Seq::<SpecSymbol>::empty());
    while i < cs.len()
        invariant
            0 <= i <= cs.len(),
            lex_from(cs@, i as int, symbols_view(res@)) == lex_spec(cs@),
        decreases cs.len() - i,
    {
        match scan_at(cs, i) {
            None => {
                return None;
            },
            Some((t, j)) => {
                match t {
                    Some(sym) => {
                        let ghost before = res@;
                        res.push(sym);
                        assert(symbols_view(res@) =~= symbols_view(before).push(sym@));
                    },
                    None => {},
                }
                i = j;
            },
        }
    }
    Some(res)
}

/// The lexer, as a namespace.
pub struct Lexer;

impl Lexer {
    /// The token for the word `cs[start..end]`, whose extent the character
    /// classes decided: the keyword it spells, or else an identifier with its text.
    pub fn word_token(cs: &Vec<char>, start: usize, end: usize) -> (t: Symbol)
        requires
            start <= end <= cs.len(),
        ensures
            t@ == word_symbol(cs@.subrange(start as int, end as int)),
    {
        match keyword_of(cs, start, end) {
            Some(kind) => Symbol::plain(kind),
            None => {
                let word = string_of_range(cs, start, end);
                Symbol { kind: SymbolKind::Ident, int_val: None, str_val: word }
            },
        }
    }

    /// The tokens of `src`, or `None` where `lex_spec` rejects it.
    pub fn try_lex(src: &str) -> (r: Option<Vec<Symbol>>)
        ensures
            r is Some <==> lex_spec(src@) is Some,
            r matches Some(v) ==> lex_spec(src@) == Some(symbols_view(v@)),
    {
        let cs = chars_of(src);
        lex_chars(&cs)
    }

    /// The tokens of `src`, which the lexer must accept.
    pub fn lex(src: &str) -> (r: Vec<Symbol>)
        requires
            lex_spec(src@) is Some,
        ensures
            lex_spec(src@) == Some(symbols_view(r@)),
    {
        let cs = chars_of(src);
        match lex_chars(&cs) {
            Some(v) => v,
            None => vstd::pervasive::unreached(),
        }
    }
}

} // verus!
