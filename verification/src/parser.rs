//! The MicroC declaration parser: turns a token stream into the top-level
//! scope of a program.
//!
//! The grammar covered here is the declaration language: variables
//! (`int x;`), arrays (`int [2, 3] a;`) and records (`{ int x; int y; } r;`).

use vstd::prelude::*;

use crate::lexer::{Delimiter, IntegerLiteral, Keyword, Literal, Symbol, Token};
use crate::microc::{Declaration, Scope, Statement};

verus! {

/// A parsed program: its top-level scope.
pub type Ast = Scope;

/// The name a declaration introduces.
pub open spec fn decl_name(d: Declaration) -> Seq<char> {
    match d {
        Declaration::Var(_, id) => id@,
        Declaration::Array(_, _, id) => id@,
        Declaration::Record(_, id) => id@,
    }
}

/// Whether the scope already declares something called `name`.
pub open spec fn has_decl_named(scope: Seq<Declaration>, name: Seq<char>) -> bool {
    exists|k: int| 0 <= k < scope.len() && decl_name(#[trigger] scope[k]) == name
}

/// The first declaration in `scope` whose name is `name`, if any.
pub fn contains<'a>(scope: &'a Vec<Declaration>, name: &String) -> (r: Option<&'a Declaration>)
    ensures
        (r is Some) <==> has_decl_named(scope@, name@),
        (r is Some) ==> decl_name(*r->0) == name@ && scope@.contains(*r->0),
{
    let ln = scope.len();
    let mut k: usize = 0;
    while k < ln
        invariant
            ln == scope@.len(),
            k <= ln,
            forall|j: int| 0 <= j < k ==> decl_name(#[trigger] scope@[j]) != name@,
        decreases ln - k,
    {
        let matches_name = match &scope[k] {
            Declaration::Var(_, id) => *id == *name,
            Declaration::Array(_, _, id) => *id == *name,
            Declaration::Record(_, id) => *id == *name,
        };
        if matches_name {
            proof {
                assert(decl_name(scope@[k as int]) == name@);
            }
            return Some(&scope[k]);
        }
        k = k + 1;
    }
    None
}

/// Whether position `i + k` still lies inside the token stream.
fn has_past(tokens: &Vec<Token>, i: usize, k: usize) -> (b: bool)
    ensures
        b == (i + k < tokens@.len()),
        b ==> i + k < usize::MAX,
{
    i < tokens.len() && tokens.len() - i > k
}

/// Whether the three tokens at `i` spell a variable declaration:
/// a type keyword, an identifier and a semicolon.
pub open spec fn var_decl_at(tokens: Seq<Token>, i: int) -> bool {
    &&& tokens[i] matches Token::Keyword(Keyword::Type(_))
    &&& tokens[i + 1] matches Token::Identifier(_)
    &&& tokens[i + 2] == Token::Symbol(Symbol::Semi)
}

/// The variable declaration the tokens at `i` spell.
pub open spec fn var_decl_of(tokens: Seq<Token>, i: int) -> Declaration {
    Declaration::Var(tokens[i]->Keyword_0->Type_0, tokens[i + 1]->Identifier_0)
}

/// Parses a variable declaration at `i` and appends it to `scope`; on success
/// the next unread position is returned.  Nothing is appended when the tokens
/// do not spell a variable declaration or the name is already declared.
pub fn parse_declaration_variable(tokens: &Vec<Token>, i: usize, scope: &mut Vec<Declaration>) -> (r:
    Result<usize, String>)
    ensures
        (r is Ok) <==> (i + 2 < tokens@.len() && var_decl_at(tokens@, i as int) && !has_decl_named(
            old(scope)@,
            tokens@[i + 1]->Identifier_0@,
        )),
        (r is Ok) ==> r->Ok_0 == i + 3 && final(scope)@ == old(scope)@.push(
            var_decl_of(tokens@, i as int),
        ),
        (r is Err) ==> final(scope)@ == old(scope)@,
{
    if has_past(tokens, i, 2) {
        match (&tokens[i], &tokens[i + 1], &tokens[i + 2]) {
            (
                Token::Keyword(Keyword::Type(t)),
                Token::Identifier(id),
                Token::Symbol(Symbol::Semi),
            ) => {
                if contains(scope, id).is_some() {
                    Err(String::from_str("a declaration with this name is already in the scope"))
                } else {
                    scope.push(Declaration::Var(*t, id.clone()));
                    Ok(i + 3)
                }
            },
            _ => Err(String::from_str("expected a type, an identifier and a semicolon")),
        }
    } else {
        Err(String::from_str("at least three tokens are necessary to parse a variable"))
    }
}

/// Whether the tokens at `i` spell one array dimension: an integer literal
/// followed by a comma (more dimensions follow) or by the closing bracket.
pub open spec fn dimension_at(tokens: Seq<Token>, i: int) -> bool {
    &&& tokens[i] matches Token::Literal(Literal::IntegerLiteral(_))
    &&& (tokens[i + 1] == Token::Symbol(Symbol::Comma) || tokens[i + 1] == Token::Delimiter(
        Delimiter::CloseSquare,
    ))
}

/// Reads one array dimension at `i`: the literal and the position to continue
/// from (after the comma, or at the closing bracket).
pub fn parse_dimension(tokens: &Vec<Token>, i: usize) -> (r: Option<(IntegerLiteral, usize)>)
    ensures
        (r is Some) <==> (i + 1 < tokens@.len() && dimension_at(tokens@, i as int)),
        (r is Some) ==> ({
            let (il, j) = r->0;
            &&& il == tokens@[i as int]->Literal_0->IntegerLiteral_0
            &&& (tokens@[i + 1] == Token::Symbol(Symbol::Comma) ==> j == i + 2)
            &&& (tokens@[i + 1] != Token::Symbol(Symbol::Comma) ==> j == i + 1)
            &&& i < j <= tokens@.len()
        }),
{
    if has_past(tokens, i, 1) {
        if let Token::Literal(Literal::IntegerLiteral(il)) = &tokens[i] {
            if let Token::Symbol(Symbol::Comma) = &tokens[i + 1] {
                return Some((*il, i + 2));
            }
            if let Token::Delimiter(Delimiter::CloseSquare) = &tokens[i + 1] {
                return Some((*il, i + 1));
            }
        }
    }
    None
}

/// Parses an array declaration at `i` — a type keyword, a bracketed non-empty
/// dimension list, an identifier and a semicolon — and appends it to `scope`;
/// on success the next unread position is returned.  Nothing is appended on
/// failure.
pub fn parse_declaration_array(tokens: &Vec<Token>, i: usize, scope: &mut Vec<Declaration>) -> (r:
    Result<usize, String>)
    ensures
        (r is Ok) ==> ({
            let j = r->Ok_0;
            let d = final(scope)@.last();
            &&& i < j <= tokens@.len()
            &&& final(scope)@ == old(scope)@.push(d)
            &&& d matches Declaration::Array(t, dims, id) && t == tokens@[i as int]->Keyword_0->Type_0
                && dims@.len() >= 1 && id@ == tokens@[j - 2]->Identifier_0@ && !has_decl_named(
                old(scope)@,
                id@,
            )
            &&& tokens@[i as int] matches Token::Keyword(Keyword::Type(_))
            &&& tokens@[i + 1] == Token::Delimiter(Delimiter::OpenSquare)
            &&& tokens@[j - 1] == Token::Symbol(Symbol::Semi)
            &&& tokens@[j - 2] matches Token::Identifier(_)
            &&& tokens@[j - 3] == Token::Delimiter(Delimiter::CloseSquare)
        }),
        (r is Err) ==> final(scope)@ == old(scope)@,
{
    let mut i: usize = i;
    if has_past(tokens, i, 6) {
        match (&tokens[i], &tokens[i + 1]) {
            (Token::Keyword(Keyword::Type(t)), Token::Delimiter(Delimiter::OpenSquare)) => {
                let ghost i0 = i as int;
                let t = *t;
                i = i + 2;
                let mut dimensions: Vec<IntegerLiteral> = Vec::new();
                loop
                    invariant
                        i0 + 2 <= i <= tokens@.len(),
                    ensures
                        i0 + 2 <= i <= tokens@.len(),
                    decreases tokens@.len() - i,
                {
                    match parse_dimension(tokens, i) {
                        Some((dim, ni)) => {
                            i = ni;
                            dimensions.push(dim);
                        },
                        None => {
                            break ;
                        },
                    }
                }
                if dimensions.len() > 0 {
                    if has_past(tokens, i, 2) {
                        match (&tokens[i], &tokens[i + 1], &tokens[i + 2]) {
                            (
                                Token::Delimiter(Delimiter::CloseSquare),
                                Token::Identifier(id),
                                Token::Symbol(Symbol::Semi),
                            ) => {
                                if contains(scope, id).is_some() {
                                    Err(
                                        String::from_str(
                                            "a declaration with this name is already in the scope",
                                        ),
                                    )
                                } else {
                                    scope.push(Declaration::Array(t, dimensions, id.clone()));
                                    Ok(i + 3)
                                }
                            },
                            _ => Err(
                                String::from_str(
                                    "expected a closing bracket, an identifier and a semicolon",
                                ),
                            ),
                        }
                    } else {
                        Err(
                            String::from_str(
                                "expected a closing bracket, an identifier and a semicolon",
                            ),
                        )
                    }
                } else {
                    Err(String::from_str("an array needs at least one dimension"))
                }
            },
            _ => Err(String::from_str("expected a type and an opening bracket")),
        }
    } else {
        Err(String::from_str("at least seven tokens are necessary to parse an array"))
    }
}

/// Parses a record declaration at `i` — an opening brace, a non-empty list of
/// declarations, a closing brace, an identifier and a semicolon — and appends
/// it to `scope`; on success the next unread position is returned.  Nothing
/// is appended on failure.
pub fn parse_declaration_record(tokens: &Vec<Token>, i: usize, scope: &mut Vec<Declaration>) -> (r:
    Result<usize, String>)
    ensures
        (r is Ok) ==> ({
            let j = r->Ok_0;
            let d = final(scope)@.last();
            &&& i < j <= tokens@.len()
            &&& final(scope)@ == old(scope)@.push(d)
            &&& d matches Declaration::Record(decls, id) && decls@.len() >= 1 && id@ == tokens@[j
                - 2]->Identifier_0@ && !has_decl_named(old(scope)@, id@)
            &&& tokens@[i as int] == Token::Delimiter(Delimiter::OpenCurly)
            &&& tokens@[j - 1] == Token::Symbol(Symbol::Semi)
            &&& tokens@[j - 2] matches Token::Identifier(_)
            &&& tokens@[j - 3] == Token::Delimiter(Delimiter::CloseCurly)
        }),
        (r is Err) ==> final(scope)@ == old(scope)@,
    decreases tokens@.len() - i, 0int,
{
    let start: usize = i;
    let mut pos: usize = i;
    if has_past(tokens, pos, 7) {
        if let Token::Delimiter(Delimiter::OpenCurly) = &tokens[pos] {
            pos = pos + 1;
            let mut decls: Vec<Declaration> = Vec::new();
            loop
                invariant
                    start == i,
                    start + 1 <= pos <= tokens@.len(),
                    tokens@.len() - pos < tokens@.len() - start,
                ensures
                    start + 1 <= pos <= tokens@.len(),
                decreases tokens@.len() - pos,
            {
                match parse_declaration(tokens, pos, &mut decls) {
                    Some(ni) => {
                        pos = ni;
                    },
                    None => {
                        break ;
                    },
                }
            }
            if decls.len() > 0 {
                if has_past(tokens, pos, 2) {
                    match (&tokens[pos], &tokens[pos + 1], &tokens[pos + 2]) {
                        (
                            Token::Delimiter(Delimiter::CloseCurly),
                            Token::Identifier(id),
                            Token::Symbol(Symbol::Semi),
                        ) => {
                            if contains(scope, id).is_some() {
                                Err(
                                    String::from_str(
                                        "a declaration with this name is already in the scope",
                                    ),
                                )
                            } else {
                                scope.push(Declaration::Record(decls, id.clone()));
                                Ok(pos + 3)
                            }
                        },
                        _ => Err(
                            String::from_str(
                                "expected a closing brace, an identifier and a semicolon",
                            ),
                        ),
                    }
                } else {
                    Err(
                        String::from_str("expected a closing brace, an identifier and a semicolon"),
                    )
                }
            } else {
                Err(String::from_str("a record must contain at least one declaration"))
            }
        } else {
            Err(String::from_str("expected an opening brace"))
        }
    } else {
        Err(String::from_str("at least eight tokens are necessary to parse a record"))
    }
}

/// Parses whichever declaration form starts at `i` — a variable, an array or
/// a record — and appends it to `scope`; `None` when none of them does, with
/// the scope untouched.
pub fn parse_declaration(tokens: &Vec<Token>, i: usize, scope: &mut Vec<Declaration>) -> (r: Option<
    usize,
>)
    ensures
        (r is Some) ==> i < r->0 <= tokens@.len() && final(scope)@.len() == old(scope)@.len() + 1,
        (r is None) ==> final(scope)@ == old(scope)@,
    decreases tokens@.len() - i, 1int,
{
    if i < tokens.len() {
        let is_type = match &tokens[i] {
            Token::Keyword(Keyword::Type(_)) => true,
            _ => false,
        };
        let is_open_curly = match &tokens[i] {
            Token::Delimiter(Delimiter::OpenCurly) => true,
            _ => false,
        };
        if is_type {
            match parse_declaration_variable(tokens, i, scope) {
                Ok(j) => {
                    return Some(j);
                },
                Err(_) => {},
            }
            match parse_declaration_array(tokens, i, scope) {
                Ok(j) => {
                    return Some(j);
                },
                Err(_) => {},
            }
        } else if is_open_curly {
            if has_past(tokens, i, 1) {
                match parse_declaration_record(tokens, i, scope) {
                    Ok(j) => {
                        return Some(j);
                    },
                    Err(_) => {},
                }
            }
        }
    }
    None
}

/// Parses a token stream into a program: the longest run of declarations from
/// the start becomes the top-level scope.  An empty stream is rejected;
/// statements are not part of the grammar covered here, so the statement list
/// is always empty.
pub fn parse(tokens: Vec<Token>) -> (r: Result<Ast, String>)
    ensures
        (r is Err) <==> tokens@.len() == 0,
        (r is Ok) ==> r->Ok_0.stmts@.len() == 0,
{
    if tokens.len() == 0 {
        Err(String::from_str("no tokens to parse"))
    } else {
        let mut i: usize = 0;
        let mut top_level_scope: Vec<Declaration> = Vec::new();
        loop
            invariant
                i <= tokens@.len(),
            ensures
                i <= tokens@.len(),
            decreases tokens@.len() - i,
        {
            match parse_declaration(&tokens, i, &mut top_level_scope) {
                Some(ni) => {
                    i = ni;
                },
                None => {
                    break ;
                },
            }
        }
        let stmts: Vec<Statement> = Vec::new();
        Ok(Scope { decls: top_level_scope, stmts })
    }
}

} // verus!
