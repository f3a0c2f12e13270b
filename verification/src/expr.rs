//! The expression forms the state code builds and compiles.

use vstd::prelude::*;

use crate::types::{TypeRef, TypeRefV};

verus! {

#[derive(PartialEq, Eq, Structural, Clone, Copy, Debug)]
pub enum BinaryOp {
    /// Script-number addition.
    Add,
    /// Script-number subtraction.
    Sub,
    /// Byte concatenation.
    Concat,
    /// Byte equality.
    Equal,
    /// Script-number equality.
    NumEqual,
    Less,
    LessEqual,
    Greater,
    GreaterEqual,
    /// A script number as a fixed number of bytes (`int_to_fixed_bytes`).
    Num2Bin,
}

#[derive(PartialEq, Eq, Structural, Clone, Copy, Debug)]
pub enum SplitPart {
    Left,
    Right,
}

/// An expression.
#[derive(Debug)]
pub enum Expr {
    Int(i64),
    Bool(bool),
    Bytes(Vec<u8>),
    Identifier(String),
    Binary(BinaryOp, Box<Expr>, Box<Expr>),
    /// `length(value)`.
    Length(Box<Expr>),
    /// `T(value)`: a value read as type `T`.
    Cast(TypeRef, Box<Expr>),
    /// The length of an input's signature script.
    InputScriptSigLen(Box<Expr>),
    /// `input_sigscript[start .. end]` of an input.
    InputScriptSigSubstr(Box<Expr>, Box<Expr>, Box<Expr>),
    /// An input's scriptPubKey.
    InputScriptPubKey(Box<Expr>),
    /// `new ScriptPubKeyP2SHFromRedeemScript(redeem_script)`.
    P2shFromRedeemScript(Box<Expr>),
    /// `this.bytecodeSize`.
    ThisBytecodeSize,
    /// One side of `source.split(index)`.
    Split(Box<Expr>, Box<Expr>, SplitPart),
    /// An empty array of the given type.
    EmptyArray(TypeRef),
}

/// The mathematical value of an [`Expr`].
pub enum ExprV {
    Int(i64),
    Bool(bool),
    Bytes(Seq<u8>),
    Identifier(Seq<char>),
    Binary(BinaryOp, Box<ExprV>, Box<ExprV>),
    Length(Box<ExprV>),
    Cast(TypeRefV, Box<ExprV>),
    InputScriptSigLen(Box<ExprV>),
    InputScriptSigSubstr(Box<ExprV>, Box<ExprV>, Box<ExprV>),
    InputScriptPubKey(Box<ExprV>),
    P2shFromRedeemScript(Box<ExprV>),
    ThisBytecodeSize,
    Split(Box<ExprV>, Box<ExprV>, SplitPart),
    EmptyArray(TypeRefV),
}

/// The mathematical value of an expression.
pub open spec fn expr_view(e: &Expr) -> ExprV
    decreases e,
{
    match e {
        Expr::Int(v) => ExprV::Int(*v),
        Expr::Bool(b) => ExprV::Bool(*b),
        Expr::Bytes(d) => ExprV::Bytes(d@),
        Expr::Identifier(n) => ExprV::Identifier(n@),
        Expr::Binary(op, l, r) => ExprV::Binary(*op, Box::new(expr_view(l)), Box::new(expr_view(r))),
        Expr::Length(x) => ExprV::Length(Box::new(expr_view(x))),
        Expr::Cast(t, x) => ExprV::Cast(t@, Box::new(expr_view(x))),
        Expr::InputScriptSigLen(x) => ExprV::InputScriptSigLen(Box::new(expr_view(x))),
        Expr::InputScriptSigSubstr(i, s, e) => ExprV::InputScriptSigSubstr(
            Box::new(expr_view(i)),
            Box::new(expr_view(s)),
            Box::new(expr_view(e)),
        ),
        Expr::InputScriptPubKey(x) => ExprV::InputScriptPubKey(Box::new(expr_view(x))),
        Expr::P2shFromRedeemScript(x) => ExprV::P2shFromRedeemScript(Box::new(expr_view(x))),
        Expr::ThisBytecodeSize => ExprV::ThisBytecodeSize,
        Expr::Split(s, i, p) => ExprV::Split(Box::new(expr_view(s)), Box::new(expr_view(i)), *p),
        Expr::EmptyArray(t) => ExprV::EmptyArray(t@),
    }
}

impl View for Expr {
    type V = ExprV;

    open spec fn view(&self) -> ExprV {
        expr_view(self)
    }
}

/// The values of a list of expressions.
pub open spec fn exprs_view(es: Seq<Expr>) -> Seq<ExprV> {
    es.map_values(|e: Expr| e@)
}

/// Copies a byte vector.
pub fn clone_bytes(d: &Vec<u8>) -> (r: Vec<u8>)
    ensures
        r@ == d@,
{
    let mut r: Vec<u8> = Vec::new();
    for i in 0..d.len()
        invariant
            r@ == d@.take(i as int),
    {
        r.push(d[i]);
        assert(r@ == d@.take(i + 1));
    }
    assert(d@.take(d.len() as int) == d@);
    r
}

impl Clone for Expr {
    fn clone(&self) -> (r: Self)
        ensures
            r@ == self@,
        decreases self,
    {
        match self {
            Expr::Int(v) => Expr::Int(*v),
            Expr::Bool(b) => Expr::Bool(*b),
            Expr::Bytes(d) => Expr::Bytes(clone_bytes(d)),
            Expr::Identifier(n) => Expr::Identifier(n.clone()),
            Expr::Binary(op, l, r) => Expr::Binary(
                *op,
                Box::new((**l).clone()),
                Box::new((**r).clone()),
            ),
            Expr::Length(x) => Expr::Length(Box::new((**x).clone())),
            Expr::Cast(t, x) => Expr::Cast(t.clone(), Box::new((**x).clone())),
            Expr::InputScriptSigLen(x) => Expr::InputScriptSigLen(Box::new((**x).clone())),
            Expr::InputScriptSigSubstr(i, s, e) => Expr::InputScriptSigSubstr(
                Box::new((**i).clone()),
                Box::new((**s).clone()),
                Box::new((**e).clone()),
            ),
            Expr::InputScriptPubKey(x) => Expr::InputScriptPubKey(Box::new((**x).clone())),
            Expr::P2shFromRedeemScript(x) => Expr::P2shFromRedeemScript(Box::new((**x).clone())),
            Expr::ThisBytecodeSize => Expr::ThisBytecodeSize,
            Expr::Split(s, i, p) => Expr::Split(Box::new((**s).clone()), Box::new((**i).clone()), *p),
            Expr::EmptyArray(t) => Expr::EmptyArray(t.clone()),
        }
    }
}

impl Expr {
    pub fn integer(value: i64) -> (r: Expr)
        ensures
            r@ == ExprV::Int(value),
    {
        Expr::Int(value)
    }

    pub fn identifier(name: &str) -> (r: Expr)
        ensures
            r@ == ExprV::Identifier(name@),
    {
        Expr::Identifier(name.to_owned())
    }
}

/// `left op right`.
pub fn binary_expr(op: BinaryOp, left: Expr, right: Expr) -> (r: Expr)
    ensures
        r@ == ExprV::Binary(op, Box::new(left@), Box::new(right@)),
{
    Expr::Binary(op, Box::new(left), Box::new(right))
}

} // verus!
