//! Lexical tokens of MicroC and the tokenizer that produces them.

use vstd::prelude::*;
use vstd::string::StrSliceExecFns;

verus! {

/// A bracketing character.
#[derive(Debug, Clone, Copy, PartialEq, Eq, Structural)]
pub enum Delimiter {
    OpenCurly,
    OpenSquare,
    OpenPar,
    CloseCurly,
    CloseSquare,
    ClosePar,
}

/// A type name of MicroC.
#[derive(Debug, Clone, Copy, PartialEq, Eq, Structural)]
pub enum Type {
    Int,
    Float,
    Bool,
}

/// A reserved word of MicroC.
#[derive(Debug, Clone, Copy, PartialEq, Eq, Structural)]
pub enum Keyword {
    Break,
    Continue,
    Else,
    False,
    If,
    Read,
    True,
    While,
    Write,
    Type(Type),
}

/// An integer literal, remembering the base it was written in.
#[derive(Debug, Clone, Copy, PartialEq, Eq, Structural)]
pub enum IntegerLiteral {
    DecimalLiteral(isize),
    BinaryLiteral(isize),
    OctalLiteral(isize),
    HexadecimalLiteral(isize),
}

/// A literal value.
#[derive(Debug, Clone, Copy, PartialEq, Eq, Structural)]
pub enum Literal {
    IntegerLiteral(IntegerLiteral),
    BooleanLiteral(bool),
}

/// An operator or punctuation mark.
#[derive(Debug, Clone, Copy, PartialEq, Eq, Structural)]
pub enum Symbol {
    Plus,
    Minus,
    Star,
    Slash,
    Percent,
    Caret,
    Not,
    And,
    Or,
    AndAnd,
    OrOr,
    Shl,
    Shr,
    PlusEq,
    MinusEq,
    StarEq,
    SlashEq,
    PercentEq,
    CaretEq,
    AndEq,
    OrEq,
    ShlEq,
    ShrEq,
    Eq,
    EqEq,
    Ne,
    Gt,
    Lt,
    Ge,
    Le,
    Dot,
    Comma,
    Semi,
    Colon,
    ColonEq,
}

/// One lexical token.
#[derive(Debug, Clone, PartialEq, Eq)]
pub enum Token {
    Delimiter(Delimiter),
    Identifier(String),
    Keyword(Keyword),
    Literal(Literal),
    Symbol(Symbol),
}

/// Whether `c` is an ASCII letter.
pub open spec fn is_letter_spec(c: char) -> bool {
    (97 <= c as u32 && c as u32 <= 122) || (65 <= c as u32 && c as u32 <= 90)
}

/// Whether `c` is an ASCII digit.
pub open spec fn is_digit_spec(c: char) -> bool {
    48 <= c as u32 && c as u32 <= 57
}

/// Whether `c` may continue an identifier: a letter, a digit or an
/// underscore.
pub open spec fn is_word_char_spec(c: char) -> bool {
    is_letter_spec(c) || is_digit_spec(c) || c == '_'
}

fn is_letter(c: char) -> (b: bool)
    ensures
        b == is_letter_spec(c),
{
    let u = c as u32;
    (97 <= u && u <= 122) || (65 <= u && u <= 90)
}

fn is_digit(c: char) -> (b: bool)
    ensures
        b == is_digit_spec(c),
{
    let u = c as u32;
    48 <= u && u <= 57
}

fn is_word_char(c: char) -> (b: bool)
    ensures
        b == is_word_char_spec(c),
{
    is_letter(c) || is_digit(c) || c == '_'
}

/// The numeric value of `c` as a digit, or a negative number when `c` is no
/// digit of any base up to sixteen.
pub open spec fn digit_val(c: char) -> int {
    let u = c as u32;
    if 48 <= u && u <= 57 {
        u - 48
    } else if 97 <= u && u <= 102 {
        u - 87
    } else if 65 <= u && u <= 70 {
        u - 55
    } else {
        -1
    }
}

/// Whether `s` is a non-empty run of digits of base `radix`.
pub open spec fn all_digits(s: Seq<char>, radix: int) -> bool {
    s.len() > 0 && forall|i: int| 0 <= i < s.len() ==> 0 <= digit_val(#[trigger] s[i]) < radix
}

/// The number the digit run `s` denotes in base `radix`.
pub open spec fn digits_value(s: Seq<char>, radix: int) -> int
    decreases s.len(),
{
    if s.len() == 0 {
        0
    } else {
        digits_value(s.drop_last(), radix) * radix + digit_val(s.last())
    }
}

proof fn lemma_digits_value_nonneg(s: Seq<char>, radix: int)
    requires
        radix > 1,
        forall|i: int| 0 <= i < s.len() ==> 0 <= digit_val(#[trigger] s[i]),
    ensures
        digits_value(s, radix) >= 0,
    decreases s.len(),
{
    if s.len() > 0 {
        assert forall|i: int| 0 <= i < s.drop_last().len() implies 0 <= digit_val(
            #[trigger] s.drop_last()[i],
        ) by {
            assert(s.drop_last()[i] == s[i]);
        }
        lemma_digits_value_nonneg(s.drop_last(), radix);
        assert(digits_value(s.drop_last(), radix) * radix >= 0) by (nonlinear_arith)
            requires
                digits_value(s.drop_last(), radix) >= 0,
                radix > 1,
        ;
    }
}

/// Reads a run of base-`radix` digits as a number, watching for overflow.
pub(crate) fn parse_digits(span: &Vec<char>, radix: usize) -> (r: Option<isize>)
    requires
        radix == 2 || radix == 8 || radix == 10 || radix == 16,
    ensures
        (r is Some) <==> (all_digits(span@, radix as int) && digits_value(span@, radix as int)
            <= isize::MAX),
        (r is Some) ==> r->0 == digits_value(span@, radix as int) && r->0 >= 0,
{
    let ln = span.len();
    if ln == 0 {
        return None;
    }
    let max: usize = isize::MAX as usize;
    let mut acc: usize = 0;
    let mut i: usize = 0;
    while i < ln
        invariant
            ln == span@.len(),
            0 < ln,
            i <= ln,
            radix == 2 || radix == 8 || radix == 10 || radix == 16,
            max == isize::MAX as usize,
            forall|j: int| 0 <= j < i ==> 0 <= digit_val(#[trigger] span@[j]) < radix,
            acc == digits_value(span@.subrange(0, i as int), radix as int),
            acc <= max,
        decreases ln - i,
    {
        let c = span[i];
        let u = c as u32;
        let dv: usize = if 48 <= u && u <= 57 {
            (u - 48) as usize
        } else if 97 <= u && u <= 102 {
            (u - 87) as usize
        } else if 65 <= u && u <= 70 {
            (u - 55) as usize
        } else {
            16
        };
        if dv >= radix {
            proof {
                if all_digits(span@, radix as int) {
                    assert(0 <= digit_val(span@[i as int]) < radix);
                }
            }
            return None;
        }
        proof {
            assert(dv == digit_val(span@[i as int]));
        }
        proof {
            assert(span@.subrange(0, i + 1).drop_last() =~= span@.subrange(0, i as int));
            assert(span@.subrange(0, i + 1).last() == span@[i as int]);
        }
        let step: Option<usize> = match acc.checked_mul(radix) {
            Some(x) => x.checked_add(dv),
            None => None,
        };
        let mut fits = false;
        let next: usize = match step {
            Some(v) => {
                if v <= max {
                    fits = true;
                    v
                } else {
                    0
                }
            },
            None => 0,
        };
        if !fits {
            proof {
                assert(digits_value(span@.subrange(0, i + 1), radix as int) > max);
                lemma_digits_overflow(span@, radix as int, i as int, max as int);
            }
            return None;
        }
        acc = acc * radix + dv;
        i = i + 1;
    }
    proof {
        assert(span@.subrange(0, ln as int) =~= span@);
    }
    Some(acc as isize)
}

/// If the whole run is made of valid digits and the prefix before `i`
/// already exceeds what the bound allows, the run's value exceeds the bound.
proof fn lemma_digits_overflow(s: Seq<char>, radix: int, i: int, max: int)
    requires
        radix > 1,
        0 <= i < s.len(),
        digits_value(s.subrange(0, i + 1), radix) > max,
    ensures
        all_digits(s, radix) ==> digits_value(s, radix) > max,
{
    if all_digits(s, radix) {
        lemma_digits_prefix_grows(s, radix, i + 1);
        assert(digits_value(s, radix) >= digits_value(s.subrange(0, i + 1), radix));
    }
}

/// With all digits valid, a longer run denotes at least as much as its
/// prefix.
proof fn lemma_digits_prefix_grows(s: Seq<char>, radix: int, i: int)
    requires
        radix > 1,
        0 <= i <= s.len(),
        forall|k: int| 0 <= k < s.len() ==> 0 <= digit_val(#[trigger] s[k]) < radix,
    ensures
        digits_value(s, radix) >= digits_value(s.subrange(0, i), radix),
    decreases s.len() - i,
{
    if i < s.len() {
        let p = digits_value(s.subrange(0, i), radix);
        let d = digit_val(s[i]);
        assert(s.subrange(0, i + 1).drop_last() =~= s.subrange(0, i));
        assert(s.subrange(0, i + 1).last() == s[i]);
        assert forall|k: int| 0 <= k < s.subrange(0, i).len() implies 0 <= digit_val(
            #[trigger] s.subrange(0, i)[k],
        ) by {
            assert(s.subrange(0, i)[k] == s[k]);
        }
        lemma_digits_value_nonneg(s.subrange(0, i), radix);
        assert(p * radix + d >= p) by (nonlinear_arith)
            requires
                p >= 0,
                radix > 1,
                d >= 0,
        ;
        lemma_digits_prefix_grows(s, radix, i + 1);
    } else {
        assert(s.subrange(0, i) =~= s);
    }
}

/// The delimiter a character denotes.
pub open spec fn delimiter_of(c: char) -> Option<Delimiter> {
    if c == '{' {
        Some(Delimiter::OpenCurly)
    } else if c == '[' {
        Some(Delimiter::OpenSquare)
    } else if c == '(' {
        Some(Delimiter::OpenPar)
    } else if c == '}' {
        Some(Delimiter::CloseCurly)
    } else if c == ']' {
        Some(Delimiter::CloseSquare)
    } else if c == ')' {
        Some(Delimiter::ClosePar)
    } else {
        None
    }
}

impl Delimiter {
    /// Reads a bracketing character.
    pub fn try_from(value: char) -> (r: Result<Delimiter, String>)
        ensures
            (r is Ok) <==> (delimiter_of(value) is Some),
            (r is Ok) ==> r->Ok_0 == delimiter_of(value)->0,
    {
        match value {
            '{' => Ok(Delimiter::OpenCurly),
            '[' => Ok(Delimiter::OpenSquare),
            '(' => Ok(Delimiter::OpenPar),
            '}' => Ok(Delimiter::CloseCurly),
            ']' => Ok(Delimiter::CloseSquare),
            ')' => Ok(Delimiter::ClosePar),
            _ => Err(String::from_str("unknown delimiter")),
        }
    }
}

/// The type name a word denotes.
pub open spec fn type_of_word(s: Seq<char>) -> Option<Type> {
    if s == "int"@ {
        Some(Type::Int)
    } else if s == "float"@ {
        Some(Type::Float)
    } else if s == "bool"@ {
        Some(Type::Bool)
    } else {
        None
    }
}

impl Type {
    /// Reads a type name.
    pub fn try_from(value: &String) -> (r: Result<Type, String>)
        ensures
            (r is Ok) <==> (type_of_word(value@) is Some),
            (r is Ok) ==> r->Ok_0 == type_of_word(value@)->0,
    {
        if *value == String::from_str("int") {
            Ok(Type::Int)
        } else if *value == String::from_str("float") {
            Ok(Type::Float)
        } else if *value == String::from_str("bool") {
            Ok(Type::Bool)
        } else {
            Err(String::from_str("unknown type"))
        }
    }
}

/// The keyword a word denotes; a type name is a keyword too.
pub open spec fn keyword_of(s: Seq<char>) -> Option<Keyword> {
    if s == "break"@ {
        Some(Keyword::Break)
    } else if s == "continue"@ {
        Some(Keyword::Continue)
    } else if s == "else"@ {
        Some(Keyword::Else)
    } else if s == "false"@ {
        Some(Keyword::False)
    } else if s == "if"@ {
        Some(Keyword::If)
    } else if s == "read"@ {
        Some(Keyword::Read)
    } else if s == "true"@ {
        Some(Keyword::True)
    } else if s == "while"@ {
        Some(Keyword::While)
    } else if s == "write"@ {
        Some(Keyword::Write)
    } else if type_of_word(s) is Some {
        Some(Keyword::Type(type_of_word(s)->0))
    } else {
        None
    }
}

impl Keyword {
    /// Reads a reserved word.
    pub fn try_from(value: &String) -> (r: Result<Keyword, String>)
        ensures
            (r is Ok) <==> (keyword_of(value@) is Some),
            (r is Ok) ==> r->Ok_0 == keyword_of(value@)->0,
    {
        if *value == String::from_str("break") {
            Ok(Keyword::Break)
        } else if *value == String::from_str("continue") {
            Ok(Keyword::Continue)
        } else if *value == String::from_str("else") {
            Ok(Keyword::Else)
        } else if *value == String::from_str("false") {
            Ok(Keyword::False)
        } else if *value == String::from_str("if") {
            Ok(Keyword::If)
        } else if *value == String::from_str("read") {
            Ok(Keyword::Read)
        } else if *value == String::from_str("true") {
            Ok(Keyword::True)
        } else if *value == String::from_str("while") {
            Ok(Keyword::While)
        } else if *value == String::from_str("write") {
            Ok(Keyword::Write)
        } else {
            match Type::try_from(value) {
                Ok(t) => Ok(Keyword::Type(t)),
                Err(_) => Err(String::from_str("unknown keyword")),
            }
        }
    }
}

/// The integer literal a word denotes: a run of decimal digits, or a binary,
/// octal or hexadecimal run behind a `0b`, `0o` or `0x` prefix, in range for
/// a signed machine word.
pub open spec fn int_literal_of(s: Seq<char>) -> Option<IntegerLiteral> {
    if all_digits(s, 10) && digits_value(s, 10) <= isize::MAX {
        Some(IntegerLiteral::DecimalLiteral(digits_value(s, 10) as isize))
    } else if s.len() > 2 && s[0] == '0' && s[1] == 'b' && all_digits(s.skip(2), 2)
        && digits_value(s.skip(2), 2) <= isize::MAX {
        Some(IntegerLiteral::BinaryLiteral(digits_value(s.skip(2), 2) as isize))
    } else if s.len() > 2 && s[0] == '0' && s[1] == 'o' && all_digits(s.skip(2), 8)
        && digits_value(s.skip(2), 8) <= isize::MAX {
        Some(IntegerLiteral::OctalLiteral(digits_value(s.skip(2), 8) as isize))
    } else if s.len() > 2 && s[0] == '0' && s[1] == 'x' && all_digits(s.skip(2), 16)
        && digits_value(s.skip(2), 16) <= isize::MAX {
        Some(IntegerLiteral::HexadecimalLiteral(digits_value(s.skip(2), 16) as isize))
    } else {
        None
    }
}

/// The characters of `s`, in order.
pub(crate) fn str_chars(s: &str) -> (r: Vec<char>)
    ensures
        r@ == s@,
{
    let n = s.unicode_len();
    let mut out: Vec<char> = Vec::new();
    let mut i: usize = 0;
    while i < n
        invariant
            n == s@.len(),
            i <= n,
            out@ == s@.subrange(0, i as int),
        decreases n - i,
    {
        out.push(s.get_char(i));
        proof {
            assert(out@ =~= s@.subrange(0, i + 1));
        }
        i = i + 1;
    }
    proof {
        assert(out@ =~= s@);
    }
    out
}

impl IntegerLiteral {
    /// Reads an integer literal.
    pub fn try_from(value: &String) -> (r: Result<IntegerLiteral, String>)
        ensures
            (r is Ok) <==> (int_literal_of(value@) is Some),
            (r is Ok) ==> r->Ok_0 == int_literal_of(value@)->0,
    {
        let chars = str_chars(value.as_str());
        match parse_digits(&chars, 10) {
            Some(v) => {
                return Ok(IntegerLiteral::DecimalLiteral(v));
            },
            None => {},
        }
        if chars.len() > 2 && chars[0] == '0' {
            let mut rest: Vec<char> = Vec::new();
            let ln = chars.len();
            let mut i: usize = 2;
            while i < ln
                invariant
                    ln == chars@.len(),
                    2 <= i <= ln,
                    rest@ == chars@.subrange(2, i as int),
                decreases ln - i,
            {
                rest.push(chars[i]);
                proof {
                    assert(rest@ =~= chars@.subrange(2, i + 1));
                }
                i = i + 1;
            }
            proof {
                assert(rest@ =~= chars@.skip(2));
            }
            let marker = chars[1];
            if marker == 'b' {
                match parse_digits(&rest, 2) {
                    Some(v) => Ok(IntegerLiteral::BinaryLiteral(v)),
                    None => Err(String::from_str("unknown integer literal")),
                }
            } else if marker == 'o' {
                match parse_digits(&rest, 8) {
                    Some(v) => Ok(IntegerLiteral::OctalLiteral(v)),
                    None => Err(String::from_str("unknown integer literal")),
                }
            } else if marker == 'x' {
                match parse_digits(&rest, 16) {
                    Some(v) => Ok(IntegerLiteral::HexadecimalLiteral(v)),
                    None => Err(String::from_str("unknown integer literal")),
                }
            } else {
                Err(String::from_str("unknown integer literal"))
            }
        } else {
            Err(String::from_str("unknown integer literal"))
        }
    }
}

/// The literal a word denotes: an integer literal, or a boolean.
pub open spec fn literal_of(s: Seq<char>) -> Option<Literal> {
    if int_literal_of(s) is Some {
        Some(Literal::IntegerLiteral(int_literal_of(s)->0))
    } else if s == "true"@ {
        Some(Literal::BooleanLiteral(true))
    } else if s == "false"@ {
        Some(Literal::BooleanLiteral(false))
    } else {
        None
    }
}

impl Literal {
    /// Reads a literal.
    pub fn try_from(value: &String) -> (r: Result<Literal, String>)
        ensures
            (r is Ok) <==> (literal_of(value@) is Some),
            (r is Ok) ==> r->Ok_0 == literal_of(value@)->0,
    {
        match IntegerLiteral::try_from(value) {
            Ok(il) => Ok(Literal::IntegerLiteral(il)),
            Err(_) => {
                if *value == String::from_str("true") {
                    Ok(Literal::BooleanLiteral(true))
                } else if *value == String::from_str("false") {
                    Ok(Literal::BooleanLiteral(false))
                } else {
                    Err(String::from_str("unknown literal"))
                }
            },
        }
    }
}

/// The symbol a single character denotes.
pub open spec fn symbol_of_char(c: char) -> Option<Symbol> {
    if c == '+' {
        Some(Symbol::Plus)
    } else if c == '-' {
        Some(Symbol::Minus)
    } else if c == '*' {
        Some(Symbol::Star)
    } else if c == '/' {
        Some(Symbol::Slash)
    } else if c == '%' {
        Some(Symbol::Percent)
    } else if c == '^' {
        Some(Symbol::Caret)
    } else if c == '!' {
        Some(Symbol::Not)
    } else if c == '&' {
        Some(Symbol::And)
    } else if c == '|' {
        Some(Symbol::Or)
    } else if c == '=' {
        Some(Symbol::Eq)
    } else if c == '>' {
        Some(Symbol::Gt)
    } else if c == '<' {
        Some(Symbol::Lt)
    } else if c == '.' {
        Some(Symbol::Dot)
    } else if c == ',' {
        Some(Symbol::Comma)
    } else if c == ';' {
        Some(Symbol::Semi)
    } else if c == ':' {
        Some(Symbol::Colon)
    } else {
        None
    }
}

/// The symbol a two-character run of symbols combines into.
pub open spec fn symbol_of_pair(a: Symbol, b: Symbol) -> Option<Symbol> {
    if a == Symbol::Gt && b == Symbol::Gt {
        Some(Symbol::Shr)
    } else if a == Symbol::Lt && b == Symbol::Lt {
        Some(Symbol::Shl)
    } else if b == Symbol::Eq {
        match a {
            Symbol::Plus => Some(Symbol::PlusEq),
            Symbol::Minus => Some(Symbol::MinusEq),
            Symbol::Star => Some(Symbol::StarEq),
            Symbol::Slash => Some(Symbol::SlashEq),
            Symbol::Percent => Some(Symbol::PercentEq),
            Symbol::Caret => Some(Symbol::CaretEq),
            Symbol::Not => Some(Symbol::Ne),
            Symbol::And => Some(Symbol::AndEq),
            Symbol::Or => Some(Symbol::OrEq),
            Symbol::Eq => Some(Symbol::EqEq),
            Symbol::Gt => Some(Symbol::Ge),
            Symbol::Lt => Some(Symbol::Le),
            Symbol::Colon => Some(Symbol::ColonEq),
            _ => None,
        }
    } else {
        None
    }
}

/// The symbol a three-character run of symbols combines into.
pub open spec fn symbol_of_triple(a: Symbol, b: Symbol, c: Symbol) -> Option<Symbol> {
    if a == Symbol::Gt && b == Symbol::Gt && c == Symbol::Eq {
        Some(Symbol::ShrEq)
    } else if a == Symbol::Lt && b == Symbol::Lt && c == Symbol::Eq {
        Some(Symbol::ShlEq)
    } else {
        None
    }
}

impl Symbol {
    /// Reads a single symbol character.
    pub fn try_from_char(value: char) -> (r: Result<Symbol, String>)
        ensures
            (r is Ok) <==> (symbol_of_char(value) is Some),
            (r is Ok) ==> r->Ok_0 == symbol_of_char(value)->0,
    {
        match value {
            '+' => Ok(Symbol::Plus),
            '-' => Ok(Symbol::Minus),
            '*' => Ok(Symbol::Star),
            '/' => Ok(Symbol::Slash),
            '%' => Ok(Symbol::Percent),
            '^' => Ok(Symbol::Caret),
            '!' => Ok(Symbol::Not),
            '&' => Ok(Symbol::And),
            '|' => Ok(Symbol::Or),
            '=' => Ok(Symbol::Eq),
            '>' => Ok(Symbol::Gt),
            '<' => Ok(Symbol::Lt),
            '.' => Ok(Symbol::Dot),
            ',' => Ok(Symbol::Comma),
            ';' => Ok(Symbol::Semi),
            ':' => Ok(Symbol::Colon),
            _ => Err(String::from_str("unknown single-character symbol")),
        }
    }

    /// Combines the first symbols of a run into one two- or three-character
    /// operator.
    pub fn try_from_pair(a: Symbol, b: Symbol) -> (r: Result<Symbol, String>)
        ensures
            (r is Ok) <==> (symbol_of_pair(a, b) is Some),
            (r is Ok) ==> r->Ok_0 == symbol_of_pair(a, b)->0,
    {
        if a == Symbol::Gt && b == Symbol::Gt {
            Ok(Symbol::Shr)
        } else if a == Symbol::Lt && b == Symbol::Lt {
            Ok(Symbol::Shl)
        } else if b == Symbol::Eq {
            match a {
                Symbol::Plus => Ok(Symbol::PlusEq),
                Symbol::Minus => Ok(Symbol::MinusEq),
                Symbol::Star => Ok(Symbol::StarEq),
                Symbol::Slash => Ok(Symbol::SlashEq),
                Symbol::Percent => Ok(Symbol::PercentEq),
                Symbol::Caret => Ok(Symbol::CaretEq),
                Symbol::Not => Ok(Symbol::Ne),
                Symbol::And => Ok(Symbol::AndEq),
                Symbol::Or => Ok(Symbol::OrEq),
                Symbol::Eq => Ok(Symbol::EqEq),
                Symbol::Gt => Ok(Symbol::Ge),
                Symbol::Lt => Ok(Symbol::Le),
                Symbol::Colon => Ok(Symbol::ColonEq),
                _ => Err(String::from_str("unknown two-character operator")),
            }
        } else {
            Err(String::from_str("unknown two-character operator"))
        }
    }

    /// Combines three symbols into one three-character operator.
    pub fn try_from_triple(a: Symbol, b: Symbol, c: Symbol) -> (r: Result<Symbol, String>)
        ensures
            (r is Ok) <==> (symbol_of_triple(a, b, c) is Some),
            (r is Ok) ==> r->Ok_0 == symbol_of_triple(a, b, c)->0,
    {
        if a == Symbol::Gt && b == Symbol::Gt && c == Symbol::Eq {
            Ok(Symbol::ShrEq)
        } else if a == Symbol::Lt && b == Symbol::Lt && c == Symbol::Eq {
            Ok(Symbol::ShlEq)
        } else {
            Err(String::from_str("unknown three-character operator"))
        }
    }
}

/// Tokenizes source lines: identifiers, keywords, literals, operators and
/// delimiters, with line comments (`//`) and block comments (`/* ... */`,
/// possibly spanning lines) skipped.  Characters that start no token are
/// ignored; a malformed literal is an error.
pub fn lex(lines: &Vec<String>) -> (r: Result<Vec<Token>, String>)
    ensures
        lines@.len() == 0 ==> (r is Ok) && r->Ok_0@.len() == 0,
{
    let mut tokens: Vec<Token> = Vec::new();
    let mut in_comment = false;
    let nlines = lines.len();
    let mut li: usize = 0;
    while li < nlines
        invariant
            nlines == lines@.len(),
            li <= nlines,
            nlines == 0 ==> tokens@.len() == 0,
        decreases nlines - li,
    {
        let line = &lines[li];
        let chars = str_chars(line.as_str());
        let ln = chars.len();
        let mut i: usize = 0;
        if in_comment {
            let mut j: usize = 0;
            while j < ln && (j + 1 >= ln || !(chars[j] == '*' && chars[j + 1] == '/'))
                invariant
                    ln == chars@.len(),
                    j <= ln,
                decreases ln - j,
            {
                j = j + 1;
            }
            if j < ln {
                in_comment = false;
                i = j + 2;
            }
        }
        if !in_comment {
            while i < ln
                invariant
                    0 < lines@.len(),
                    ln == chars@.len(),
                    ln == line@.len(),
                    i <= ln,
                ensures
                    true,
                decreases ln - i,
            {
                let c = chars[i];
                if is_letter(c) {
                    let mut j: usize = i + 1;
                    while j < ln && is_word_char(chars[j])
                        invariant
                            ln == chars@.len(),
                            i < j <= ln,
                        decreases ln - j,
                    {
                        j = j + 1;
                    }
                    let word = line.as_str().substring_char(i, j).to_owned();
                    match Keyword::try_from(&word) {
                        Ok(kw) => {
                            match kw {
                                Keyword::True => tokens.push(
                                    Token::Literal(Literal::BooleanLiteral(true)),
                                ),
                                Keyword::False => tokens.push(
                                    Token::Literal(Literal::BooleanLiteral(false)),
                                ),
                                _ => tokens.push(Token::Keyword(kw)),
                            }
                        },
                        Err(_) => tokens.push(Token::Identifier(word)),
                    }
                    i = j;
                } else if is_digit(c) {
                    let mut j: usize = i + 1;
                    while j < ln && (is_letter(chars[j]) || is_digit(chars[j]))
                        invariant
                            ln == chars@.len(),
                            i < j <= ln,
                        decreases ln - j,
                    {
                        j = j + 1;
                    }
                    let word = line.as_str().substring_char(i, j).to_owned();
                    match Literal::try_from(&word) {
                        Ok(l) => tokens.push(Token::Literal(l)),
                        Err(e) => {
                            return Err(e);
                        },
                    }
                    i = j;
                } else {
                    match Symbol::try_from_char(c) {
                        Ok(s) => {
                            let next_slash = i + 1 < ln && chars[i + 1] == '/';
                            let next_star = i + 1 < ln && chars[i + 1] == '*';
                            if s == Symbol::Slash && next_slash {
                                break ;
                            } else if s == Symbol::Slash && next_star {
                                let mut j: usize = i + 2;
                                while j < ln && (j + 1 >= ln || !(chars[j] == '*' && chars[j + 1]
                                    == '/'))
                                    invariant
                                        ln == chars@.len(),
                                        i + 2 <= j <= ln,
                                    decreases ln - j,
                                {
                                    j = j + 1;
                                }
                                if j < ln {
                                    i = j + 2;
                                } else {
                                    in_comment = true;
                                    break ;
                                }
                            } else if s == Symbol::Dot || s == Symbol::Comma || s == Symbol::Semi {
                                tokens.push(Token::Symbol(s));
                                i = i + 1;
                            } else {
                                let mut buff: Vec<Symbol> = Vec::new();
                                buff.push(s);
                                let mut j: usize = i + 1;
                                while j < ln
                                    invariant
                                        ln == chars@.len(),
                                        i < j <= ln,
                                    ensures
                                        i < j <= ln,
                                    decreases ln - j,
                                {
                                    match Symbol::try_from_char(chars[j]) {
                                        Ok(o) => {
                                            buff.push(o);
                                            j = j + 1;
                                        },
                                        Err(_) => {
                                            break ;
                                        },
                                    }
                                }
                                let mut bpos: usize = 0;
                                let bln = buff.len();
                                while bpos < bln
                                    invariant
                                        bln == buff@.len(),
                                        bpos <= bln,
                                    decreases bln - bpos,
                                {
                                    let rem = bln - bpos;
                                    let mut consumed: usize = 0;
                                    if rem >= 3 {
                                        match Symbol::try_from_triple(
                                            buff[bpos],
                                            buff[bpos + 1],
                                            buff[bpos + 2],
                                        ) {
                                            Ok(t) => {
                                                tokens.push(Token::Symbol(t));
                                                consumed = 3;
                                            },
                                            Err(_) => {},
                                        }
                                    }
                                    if consumed == 0 && rem >= 2 {
                                        match Symbol::try_from_pair(buff[bpos], buff[bpos + 1]) {
                                            Ok(d) => {
                                                tokens.push(Token::Symbol(d));
                                                consumed = 2;
                                            },
                                            Err(_) => {},
                                        }
                                    }
                                    if consumed == 0 {
                                        tokens.push(Token::Symbol(buff[bpos]));
                                        consumed = 1;
                                    }
                                    bpos = bpos + consumed;
                                }
                                i = j;
                            }
                        },
                        Err(_) => {
                            match Delimiter::try_from(c) {
                                Ok(d) => {
                                    tokens.push(Token::Delimiter(d));
                                },
                                Err(_) => {},
                            }
                            i = i + 1;
                        },
                    }
                }
            }
        }
        li = li + 1;
    }
    Ok(tokens)
}

/// The source text of a delimiter.
pub open spec fn delimiter_text(d: Delimiter) -> Seq<char> {
    match d {
        Delimiter::OpenCurly => "{"@,
        Delimiter::OpenSquare => "["@,
        Delimiter::OpenPar => "("@,
        Delimiter::CloseCurly => "}"@,
        Delimiter::CloseSquare => "]"@,
        Delimiter::ClosePar => ")"@,
    }
}

/// The source text of a type name.
pub open spec fn type_text(t: Type) -> Seq<char> {
    match t {
        Type::Int => "int"@,
        Type::Float => "float"@,
        Type::Bool => "bool"@,
    }
}

/// The source text of a keyword.
pub open spec fn keyword_text(k: Keyword) -> Seq<char> {
    match k {
        Keyword::Break => "break"@,
        Keyword::Continue => "continue"@,
        Keyword::Else => "else"@,
        Keyword::False => "false"@,
        Keyword::If => "if"@,
        Keyword::Read => "read"@,
        Keyword::True => "true"@,
        Keyword::While => "while"@,
        Keyword::Write => "write"@,
        Keyword::Type(t) => type_text(t),
    }
}

/// The source text of a symbol.
pub open spec fn symbol_text(sym: Symbol) -> Seq<char> {
    match sym {
        Symbol::Plus => "+"@,
        Symbol::Minus => "-"@,
        Symbol::Star => "*"@,
        Symbol::Slash => "/"@,
        Symbol::Percent => "%"@,
        Symbol::Caret => "^"@,
        Symbol::Not => "!"@,
        Symbol::And => "&"@,
        Symbol::Or => "|"@,
        Symbol::AndAnd => "&&"@,
        Symbol::OrOr => "||"@,
        Symbol::Shl => "<<"@,
        Symbol::Shr => ">>"@,
        Symbol::PlusEq => "+="@,
        Symbol::MinusEq => "-="@,
        Symbol::StarEq => "*="@,
        Symbol::SlashEq => "/="@,
        Symbol::PercentEq => "%="@,
        Symbol::CaretEq => "^="@,
        Symbol::AndEq => "&="@,
        Symbol::OrEq => "|="@,
        Symbol::ShlEq => "<<="@,
        Symbol::ShrEq => ">>="@,
        Symbol::Eq => "="@,
        Symbol::EqEq => "=="@,
        Symbol::Ne => "!="@,
        Symbol::Gt => ">"@,
        Symbol::Lt => "<"@,
        Symbol::Ge => ">="@,
        Symbol::Le => "<="@,
        Symbol::Dot => "."@,
        Symbol::Comma => ","@,
        Symbol::Semi => ";"@,
        Symbol::Colon => ":"@,
        Symbol::ColonEq => ":="@,
    }
}

impl Delimiter {
    /// Renders the delimiter as source text.
    pub fn text(&self) -> (r: String)
        ensures
            r@ == delimiter_text(*self),
    {
        match self {
            Delimiter::OpenCurly => String::from_str("{"),
            Delimiter::OpenSquare => String::from_str("["),
            Delimiter::OpenPar => String::from_str("("),
            Delimiter::CloseCurly => String::from_str("}"),
            Delimiter::CloseSquare => String::from_str("]"),
            Delimiter::ClosePar => String::from_str(")"),
        }
    }
}

impl Type {
    /// Renders the type name as source text.
    pub fn text(&self) -> (r: String)
        ensures
            r@ == type_text(*self),
    {
        match self {
            Type::Int => String::from_str("int"),
            Type::Float => String::from_str("float"),
            Type::Bool => String::from_str("bool"),
        }
    }
}

impl Keyword {
    /// Renders the keyword as source text.
    pub fn text(&self) -> (r: String)
        ensures
            r@ == keyword_text(*self),
    {
        match self {
            Keyword::Break => String::from_str("break"),
            Keyword::Continue => String::from_str("continue"),
            Keyword::Else => String::from_str("else"),
            Keyword::False => String::from_str("false"),
            Keyword::If => String::from_str("if"),
            Keyword::Read => String::from_str("read"),
            Keyword::True => String::from_str("true"),
            Keyword::While => String::from_str("while"),
            Keyword::Write => String::from_str("write"),
            Keyword::Type(t) => t.text(),
        }
    }
}

impl Symbol {
    /// Renders the symbol as source text.
    pub fn text(&self) -> (r: String)
        ensures
            r@ == symbol_text(*self),
    {
        match self {
            Symbol::Plus => String::from_str("+"),
            Symbol::Minus => String::from_str("-"),
            Symbol::Star => String::from_str("*"),
            Symbol::Slash => String::from_str("/"),
            Symbol::Percent => String::from_str("%"),
            Symbol::Caret => String::from_str("^"),
            Symbol::Not => String::from_str("!"),
            Symbol::And => String::from_str("&"),
            Symbol::Or => String::from_str("|"),
            Symbol::AndAnd => String::from_str("&&"),
            Symbol::OrOr => String::from_str("||"),
            Symbol::Shl => String::from_str("<<"),
            Symbol::Shr => String::from_str(">>"),
            Symbol::PlusEq => String::from_str("+="),
            Symbol::MinusEq => String::from_str("-="),
            Symbol::StarEq => String::from_str("*="),
            Symbol::SlashEq => String::from_str("/="),
            Symbol::PercentEq => String::from_str("%="),
            Symbol::CaretEq => String::from_str("^="),
            Symbol::AndEq => String::from_str("&="),
            Symbol::OrEq => String::from_str("|="),
            Symbol::ShlEq => String::from_str("<<="),
            Symbol::ShrEq => String::from_str(">>="),
            Symbol::Eq => String::from_str("="),
            Symbol::EqEq => String::from_str("=="),
            Symbol::Ne => String::from_str("!="),
            Symbol::Gt => String::from_str(">"),
            Symbol::Lt => String::from_str("<"),
            Symbol::Ge => String::from_str(">="),
            Symbol::Le => String::from_str("<="),
            Symbol::Dot => String::from_str("."),
            Symbol::Comma => String::from_str(","),
            Symbol::Semi => String::from_str(";"),
            Symbol::Colon => String::from_str(":"),
            Symbol::ColonEq => String::from_str(":="),
        }
    }
}

impl Symbol {
    /// Reads an operator word: the unique symbol whose source text is
    /// `value`, if any.
    pub fn try_from_text(value: &String) -> (r: Result<Symbol, String>)
        ensures
            (r is Ok) <==> (exists|sym: Symbol| symbol_text(sym) == value@),
            (r is Ok) ==> symbol_text(r->Ok_0) == value@,
    {
        let r: Result<Symbol, String> = if *value == String::from_str("+") {
            Ok(Symbol::Plus)
        } else if *value == String::from_str("-") {
            Ok(Symbol::Minus)
        } else if *value == String::from_str("*") {
            Ok(Symbol::Star)
        } else if *value == String::from_str("/") {
            Ok(Symbol::Slash)
        } else if *value == String::from_str("%") {
            Ok(Symbol::Percent)
        } else if *value == String::from_str("^") {
            Ok(Symbol::Caret)
        } else if *value == String::from_str("!") {
            Ok(Symbol::Not)
        } else if *value == String::from_str("&") {
            Ok(Symbol::And)
        } else if *value == String::from_str("|") {
            Ok(Symbol::Or)
        } else if *value == String::from_str("&&") {
            Ok(Symbol::AndAnd)
        } else if *value == String::from_str("||") {
            Ok(Symbol::OrOr)
        } else if *value == String::from_str("<<") {
            Ok(Symbol::Shl)
        } else if *value == String::from_str(">>") {
            Ok(Symbol::Shr)
        } else if *value == String::from_str("+=") {
            Ok(Symbol::PlusEq)
        } else if *value == String::from_str("-=") {
            Ok(Symbol::MinusEq)
        } else if *value == String::from_str("*=") {
            Ok(Symbol::StarEq)
        } else if *value == String::from_str("/=") {
            Ok(Symbol::SlashEq)
        } else if *value == String::from_str("%=") {
            Ok(Symbol::PercentEq)
        } else if *value == String::from_str("^=") {
            Ok(Symbol::CaretEq)
        } else if *value == String::from_str("&=") {
            Ok(Symbol::AndEq)
        } else if *value == String::from_str("|=") {
            Ok(Symbol::OrEq)
        } else if *value == String::from_str("<<=") {
            Ok(Symbol::ShlEq)
        } else if *value == String::from_str(">>=") {
            Ok(Symbol::ShrEq)
        } else if *value == String::from_str("=") {
            Ok(Symbol::Eq)
        } else if *value == String::from_str("==") {
            Ok(Symbol::EqEq)
        } else if *value == String::from_str("!=") {
            Ok(Symbol::Ne)
        } else if *value == String::from_str(">") {
            Ok(Symbol::Gt)
        } else if *value == String::from_str("<") {
            Ok(Symbol::Lt)
        } else if *value == String::from_str(">=") {
            Ok(Symbol::Ge)
        } else if *value == String::from_str("<=") {
            Ok(Symbol::Le)
        } else if *value == String::from_str(".") {
            Ok(Symbol::Dot)
        } else if *value == String::from_str(",") {
            Ok(Symbol::Comma)
        } else if *value == String::from_str(";") {
            Ok(Symbol::Semi)
        } else if *value == String::from_str(":") {
            Ok(Symbol::Colon)
        } else if *value == String::from_str(":=") {
            Ok(Symbol::ColonEq)
        } else {
            Err(String::from_str("unknown symbol"))
        };
        proof {
            if r is Ok {
                assert(symbol_text(r->Ok_0) == value@);
            }
        }
        r
    }
}

} // verus!
