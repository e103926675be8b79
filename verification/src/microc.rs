//! The MicroC abstract syntax: operators, declarations, expressions and
//! statements.  These are the values that control-flow graph nodes carry.

use vstd::prelude::*;

use crate::lexer::{IntegerLiteral, Type, all_digits, digits_value, parse_digits, str_chars};

verus! {

/// A bitwise or logical operator.
#[derive(Debug, Clone, PartialEq, Eq)]
pub enum BinaryOp {
    BitAnd,
    BitOr,
    BitXor,
    Not,
    Shl,
    Shr,
}

/// An arithmetic operator.
#[derive(Debug, Clone, PartialEq, Eq)]
pub enum ArithmeticOp {
    Add,
    Sub,
    Mul,
    Neg,
    Div,
    Rem,
}

/// A comparison operator.
#[derive(Debug, Clone, PartialEq, Eq)]
pub enum RelationalOp {
    Lt,
    Leq,
    Gt,
    Geq,
    Eq,
    Neq,
}

/// A variable, array or record declaration.
#[derive(Debug, PartialEq, Eq)]
pub enum Declaration {
    Var(Type, String),
    Array(Type, Vec<IntegerLiteral>, String),
    Record(Vec<Declaration>, String),
}

/// A numeric literal in an expression.
#[derive(Debug, Clone, PartialEq, Eq)]
pub enum ArithmeticLiteral {
    Int(isize),
}

/// An expression that designates a storage location.
#[derive(Debug, PartialEq, Eq)]
pub enum LvalueExpr {
    Variable(String),
    ArrayIndex(String, Box<ArithmeticOperation>),
    RecordMember(String, String),
}

/// A binary arithmetic operation.
#[derive(Debug, PartialEq, Eq)]
pub struct ArithmeticOperation {
    pub lhs: ArithmeticExpr,
    pub op: ArithmeticOp,
    pub rhs: ArithmeticExpr,
}

/// An expression that evaluates to a number.
#[derive(Debug, PartialEq, Eq)]
pub enum ArithmeticExpr {
    Literal(ArithmeticLiteral),
    LvalueExpr(LvalueExpr),
    ArithmeticOperation(Box<ArithmeticOperation>),
}

/// An expression that evaluates to a truth value.
#[derive(Debug, PartialEq, Eq)]
pub enum BooleanExpr {
    BooleanLiteral(bool),
    NotOperation(Box<BooleanExpr>),
    RelationalOperation(ArithmeticExpr, RelationalOp, ArithmeticExpr),
    BinaryOperation(Box<BooleanExpr>, BinaryOp, Box<BooleanExpr>),
}

/// Any MicroC expression.
#[derive(Debug, PartialEq, Eq)]
pub enum Expression {
    ArithmeticExpr(ArithmeticExpr),
    BooleanExpr(BooleanExpr),
    LvalueExpr(LvalueExpr),
}

/// A block: the declarations it introduces and the statements it runs.
#[derive(Debug, PartialEq, Eq)]
pub struct Scope {
    pub decls: Vec<Declaration>,
    pub stmts: Vec<Statement>,
}

/// A MicroC statement.
#[derive(Debug, PartialEq, Eq)]
pub enum Statement {
    LvalueAssign(LvalueExpr, ArithmeticExpr),
    RecordAssign(String, Vec<ArithmeticExpr>),
    If(BooleanExpr, Box<Scope>),
    IfElse(BooleanExpr, Box<Scope>, Box<Scope>),
    While(BooleanExpr, Box<Scope>),
    Read(LvalueExpr),
    Write(ArithmeticExpr),
    Break,
    Continue,
    Scope(Scope),
}

/// The source text of a bitwise or logical operator.
pub open spec fn binary_op_text(op: BinaryOp) -> Seq<char> {
    match op {
        BinaryOp::BitAnd => "&"@,
        BinaryOp::BitOr => "|"@,
        BinaryOp::BitXor => "^"@,
        BinaryOp::Not => "!"@,
        BinaryOp::Shl => "<<"@,
        BinaryOp::Shr => ">>"@,
    }
}

/// The source text of an arithmetic operator.
pub open spec fn arithmetic_op_text(op: ArithmeticOp) -> Seq<char> {
    match op {
        ArithmeticOp::Add => "+"@,
        ArithmeticOp::Sub => "-"@,
        ArithmeticOp::Mul => "*"@,
        ArithmeticOp::Neg => "-"@,
        ArithmeticOp::Div => "/"@,
        ArithmeticOp::Rem => "%"@,
    }
}

/// The source text of a comparison operator.
pub open spec fn relational_op_text(op: RelationalOp) -> Seq<char> {
    match op {
        RelationalOp::Lt => "<"@,
        RelationalOp::Leq => "<="@,
        RelationalOp::Gt => ">"@,
        RelationalOp::Geq => ">="@,
        RelationalOp::Eq => "=="@,
        RelationalOp::Neq => "!="@,
    }
}

/// The bitwise or logical operator a word denotes.
pub open spec fn binary_op_of(s: Seq<char>) -> Option<BinaryOp> {
    if s == "&"@ {
        Some(BinaryOp::BitAnd)
    } else if s == "|"@ {
        Some(BinaryOp::BitOr)
    } else if s == "^"@ {
        Some(BinaryOp::BitXor)
    } else if s == "!"@ {
        Some(BinaryOp::Not)
    } else if s == "<<"@ {
        Some(BinaryOp::Shl)
    } else if s == ">>"@ {
        Some(BinaryOp::Shr)
    } else {
        None
    }
}

/// The arithmetic operator a word denotes; a bare minus needs context (it
/// may negate or subtract), so it is not read here.
pub open spec fn arithmetic_op_of(s: Seq<char>) -> Option<ArithmeticOp> {
    if s == "+"@ {
        Some(ArithmeticOp::Add)
    } else if s == "*"@ {
        Some(ArithmeticOp::Mul)
    } else if s == "/"@ {
        Some(ArithmeticOp::Div)
    } else if s == "%"@ {
        Some(ArithmeticOp::Rem)
    } else {
        None
    }
}

/// The comparison operator a word denotes.
pub open spec fn relational_op_of(s: Seq<char>) -> Option<RelationalOp> {
    if s == "<"@ {
        Some(RelationalOp::Lt)
    } else if s == "<="@ {
        Some(RelationalOp::Leq)
    } else if s == ">"@ {
        Some(RelationalOp::Gt)
    } else if s == ">="@ {
        Some(RelationalOp::Geq)
    } else if s == "=="@ {
        Some(RelationalOp::Eq)
    } else if s == "!="@ {
        Some(RelationalOp::Neq)
    } else {
        None
    }
}

impl BinaryOp {
    /// Renders the operator as source text.
    pub fn text(&self) -> (r: String)
        ensures
            r@ == binary_op_text(*self),
    {
        match self {
            BinaryOp::BitAnd => String::from_str("&"),
            BinaryOp::BitOr => String::from_str("|"),
            BinaryOp::BitXor => String::from_str("^"),
            BinaryOp::Not => String::from_str("!"),
            BinaryOp::Shl => String::from_str("<<"),
            BinaryOp::Shr => String::from_str(">>"),
        }
    }

    /// Reads an operator word.
    pub fn try_from(value: &String) -> (r: Result<BinaryOp, String>)
        ensures
            (r is Ok) <==> (binary_op_of(value@) is Some),
            (r is Ok) ==> r->Ok_0 == binary_op_of(value@)->0,
    {
        if *value == String::from_str("&") {
            Ok(BinaryOp::BitAnd)
        } else if *value == String::from_str("|") {
            Ok(BinaryOp::BitOr)
        } else if *value == String::from_str("^") {
            Ok(BinaryOp::BitXor)
        } else if *value == String::from_str("!") {
            Ok(BinaryOp::Not)
        } else if *value == String::from_str("<<") {
            Ok(BinaryOp::Shl)
        } else if *value == String::from_str(">>") {
            Ok(BinaryOp::Shr)
        } else {
            Err(String::from_str("unknown binary operator"))
        }
    }
}

impl ArithmeticOp {
    /// Renders the operator as source text.
    pub fn text(&self) -> (r: String)
        ensures
            r@ == arithmetic_op_text(*self),
    {
        match self {
            ArithmeticOp::Add => String::from_str("+"),
            ArithmeticOp::Sub => String::from_str("-"),
            ArithmeticOp::Mul => String::from_str("*"),
            ArithmeticOp::Neg => String::from_str("-"),
            ArithmeticOp::Div => String::from_str("/"),
            ArithmeticOp::Rem => String::from_str("%"),
        }
    }

    /// Reads an operator word.
    pub fn try_from(value: &String) -> (r: Result<ArithmeticOp, String>)
        ensures
            (r is Ok) <==> (arithmetic_op_of(value@) is Some),
            (r is Ok) ==> r->Ok_0 == arithmetic_op_of(value@)->0,
    {
        if *value == String::from_str("+") {
            Ok(ArithmeticOp::Add)
        } else if *value == String::from_str("*") {
            Ok(ArithmeticOp::Mul)
        } else if *value == String::from_str("/") {
            Ok(ArithmeticOp::Div)
        } else if *value == String::from_str("%") {
            Ok(ArithmeticOp::Rem)
        } else {
            Err(String::from_str("unknown arithmetic operator"))
        }
    }
}

impl RelationalOp {
    /// Renders the operator as source text.
    pub fn text(&self) -> (r: String)
        ensures
            r@ == relational_op_text(*self),
    {
        match self {
            RelationalOp::Lt => String::from_str("<"),
            RelationalOp::Leq => String::from_str("<="),
            RelationalOp::Gt => String::from_str(">"),
            RelationalOp::Geq => String::from_str(">="),
            RelationalOp::Eq => String::from_str("=="),
            RelationalOp::Neq => String::from_str("!="),
        }
    }

    /// Reads an operator word.
    pub fn try_from(value: &String) -> (r: Result<RelationalOp, String>)
        ensures
            (r is Ok) <==> (relational_op_of(value@) is Some),
            (r is Ok) ==> r->Ok_0 == relational_op_of(value@)->0,
    {
        if *value == String::from_str("<") {
            Ok(RelationalOp::Lt)
        } else if *value == String::from_str("<=") {
            Ok(RelationalOp::Leq)
        } else if *value == String::from_str(">") {
            Ok(RelationalOp::Gt)
        } else if *value == String::from_str(">=") {
            Ok(RelationalOp::Geq)
        } else if *value == String::from_str("==") {
            Ok(RelationalOp::Eq)
        } else if *value == String::from_str("!=") {
            Ok(RelationalOp::Neq)
        } else {
            Err(String::from_str("unknown relational operator"))
        }
    }
}

/// An assignment operator.
#[derive(Debug, Clone, PartialEq, Eq, Structural)]
pub enum AssignmentOp {
    Assign,
}

/// The assignment operator a word denotes.
pub open spec fn assignment_op_of(s: Seq<char>) -> Option<AssignmentOp> {
    if s == ":="@ {
        Some(AssignmentOp::Assign)
    } else {
        None
    }
}

impl AssignmentOp {
    /// Renders the operator as source text.
    pub fn text(&self) -> (r: String)
        ensures
            r@ == ":="@,
    {
        String::from_str(":=")
    }

    /// Reads an operator word.
    pub fn try_from(value: &String) -> (r: Result<AssignmentOp, String>)
        ensures
            (r is Ok) <==> (assignment_op_of(value@) is Some),
            (r is Ok) ==> r->Ok_0 == assignment_op_of(value@)->0,
    {
        if *value == String::from_str(":=") {
            Ok(AssignmentOp::Assign)
        } else {
            Err(String::from_str("unknown assignment operator"))
        }
    }
}

/// Any MicroC operator.
#[derive(Debug, Clone, PartialEq, Eq)]
pub enum Operator {
    ArithmeticOp(ArithmeticOp),
    AssignmentOp(AssignmentOp),
    BinaryOp(BinaryOp),
    RelationalOp(RelationalOp),
}

/// The operator a word denotes: assignment first, then arithmetic, bitwise
/// and comparison operators, in that order of preference.
pub open spec fn operator_of(s: Seq<char>) -> Option<Operator> {
    if s == ":="@ {
        Some(Operator::AssignmentOp(AssignmentOp::Assign))
    } else if arithmetic_op_of(s) is Some {
        Some(Operator::ArithmeticOp(arithmetic_op_of(s)->0))
    } else if binary_op_of(s) is Some {
        Some(Operator::BinaryOp(binary_op_of(s)->0))
    } else if relational_op_of(s) is Some {
        Some(Operator::RelationalOp(relational_op_of(s)->0))
    } else {
        None
    }
}

impl Operator {
    /// Renders the operator as source text.
    pub fn text(&self) -> (r: String)
        ensures
            r@ == (match *self {
                Operator::ArithmeticOp(op) => arithmetic_op_text(op),
                Operator::AssignmentOp(_) => ":="@,
                Operator::BinaryOp(op) => binary_op_text(op),
                Operator::RelationalOp(op) => relational_op_text(op),
            }),
    {
        match self {
            Operator::ArithmeticOp(op) => op.text(),
            Operator::AssignmentOp(op) => op.text(),
            Operator::BinaryOp(op) => op.text(),
            Operator::RelationalOp(op) => op.text(),
        }
    }

    /// Reads an operator word.
    pub fn try_from(value: &String) -> (r: Result<Operator, String>)
        ensures
            (r is Ok) <==> (operator_of(value@) is Some),
            (r is Ok) ==> r->Ok_0 == operator_of(value@)->0,
    {
        if *value == String::from_str(":=") {
            Ok(Operator::AssignmentOp(AssignmentOp::Assign))
        } else {
            match ArithmeticOp::try_from(value) {
                Ok(op) => Ok(Operator::ArithmeticOp(op)),
                Err(_) => {
                    match BinaryOp::try_from(value) {
                        Ok(op) => Ok(Operator::BinaryOp(op)),
                        Err(_) => {
                            match RelationalOp::try_from(value) {
                                Ok(op) => Ok(Operator::RelationalOp(op)),
                                Err(_) => Err(String::from_str("unknown operator")),
                            }
                        },
                    }
                },
            }
        }
    }
}

/// The numeric literal a word denotes: an optional minus sign and a run of
/// decimal digits, in range for a signed machine word.
pub open spec fn arithmetic_literal_of(s: Seq<char>) -> Option<ArithmeticLiteral> {
    if all_digits(s, 10) && digits_value(s, 10) <= isize::MAX {
        Some(ArithmeticLiteral::Int(digits_value(s, 10) as isize))
    } else if s.len() > 1 && s[0] == '-' && all_digits(s.skip(1), 10) && digits_value(s.skip(1), 10)
        <= isize::MAX {
        Some(ArithmeticLiteral::Int((0 - digits_value(s.skip(1), 10)) as isize))
    } else {
        None
    }
}

impl ArithmeticLiteral {
    /// Reads a numeric literal, possibly negative.
    pub fn try_from(value: &String) -> (r: Result<ArithmeticLiteral, String>)
        ensures
            (r is Ok) <==> (arithmetic_literal_of(value@) is Some),
            (r is Ok) ==> r->Ok_0 == arithmetic_literal_of(value@)->0,
    {
        let chars = str_chars(value.as_str());
        match parse_digits(&chars, 10) {
            Some(v) => {
                return Ok(ArithmeticLiteral::Int(v));
            },
            None => {},
        }
        if chars.len() > 1 && chars[0] == '-' {
            let mut rest: Vec<char> = Vec::new();
            let ln = chars.len();
            let mut k: usize = 1;
            while k < ln
                invariant
                    ln == chars@.len(),
                    1 <= k <= ln,
                    rest@ == chars@.subrange(1, k as int),
                decreases ln - k,
            {
                rest.push(chars[k]);
                proof {
                    assert(rest@ =~= chars@.subrange(1, k + 1));
                }
                k = k + 1;
            }
            proof {
                assert(rest@ =~= chars@.skip(1));
            }
            match parse_digits(&rest, 10) {
                Some(v) => Ok(ArithmeticLiteral::Int(-v)),
                None => Err(String::from_str("unknown arithmetic literal")),
            }
        } else {
            Err(String::from_str("unknown arithmetic literal"))
        }
    }
}

/// The lvalue a name path denotes: one name is a variable, two are a record
/// member.
pub open spec fn lvalue_of(names: Seq<String>) -> Option<LvalueExpr> {
    if names.len() == 1 {
        Some(LvalueExpr::Variable(names[0]))
    } else if names.len() == 2 {
        Some(LvalueExpr::RecordMember(names[0], names[1]))
    } else {
        None
    }
}

impl LvalueExpr {
    /// Reads an lvalue from a path of names.
    pub fn try_from(value: &Vec<String>) -> (r: Result<LvalueExpr, String>)
        ensures
            (r is Ok) <==> (lvalue_of(value@) is Some),
            (r is Ok) ==> r->Ok_0 == lvalue_of(value@)->0,
    {
        if value.len() == 1 {
            Ok(LvalueExpr::Variable(value[0].clone()))
        } else if value.len() == 2 {
            Ok(LvalueExpr::RecordMember(value[0].clone(), value[1].clone()))
        } else {
            Err(String::from_str("an lvalue is one name, or a record name and a member name"))
        }
    }
}

} // verus!
