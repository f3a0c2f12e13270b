//! The syntax the statement compiler consumes: entrypoints, their statements, and the struct
//! declarations that templated state reads name. Loops and struct destructuring are lowered
//! away, and inline functions expanded, before a statement reaches the compiler.

use vstd::prelude::*;

use crate::expr::Expr;
use crate::types::{TypeRef, TypeRefV};

verus! {

/// A parameter of an entrypoint or of the contract.
pub struct ParamAst {
    pub name: String,
    pub type_ref: TypeRef,
}

/// A contract constant.
pub struct ConstantAst {
    pub name: String,
    pub type_ref: TypeRef,
}

/// One binding of a state destructuring: the state field it reads, the local it binds and
/// the local's type.
pub struct StructBindingAst {
    pub field_name: String,
    pub name: String,
    pub type_ref: TypeRef,
}

/// The value of a binding: field name, local name, type.
pub open spec fn binding_view(b: StructBindingAst) -> (Seq<char>, Seq<char>, TypeRefV) {
    (b.field_name@, b.name@, b.type_ref@)
}

/// The values of a list of bindings.
pub open spec fn bindings_view(bs: Seq<StructBindingAst>) -> Seq<(Seq<char>, Seq<char>, TypeRefV)> {
    bs.map_values(|b: StructBindingAst| binding_view(b))
}

/// A statement.
#[allow(inconsistent_fields)]
pub enum Statement {
    VariableDefinition { type_ref: TypeRef, name: String, expr: Option<Expr> },
    Require { expr: Expr },
    RequireAgeDaa { expr: Expr },
    RequireTxDaa { expr: Expr },
    RequireTxTime { expr: Expr },
    Block { body: Vec<Statement> },
    If { condition: Expr, then_branch: Vec<Statement>, else_branch: Option<Vec<Statement>> },
    For { ident: String, start: Expr, end: Expr, body: Vec<Statement> },
    Return { exprs: Vec<Expr> },
    TupleAssignment {
        left_type_ref: TypeRef,
        left_name: String,
        right_type_ref: TypeRef,
        right_name: String,
        expr: Expr,
    },
    FunctionCall { name: String, args: Vec<Expr> },
    StateFunctionCallAssign {
        target_struct: String,
        bindings: Vec<StructBindingAst>,
        name: String,
        args: Vec<Expr>,
    },
    StructDestructure { bindings: Vec<StructBindingAst>, expr: Expr },
    FunctionCallAssign { bindings: Vec<ParamAst>, name: String, args: Vec<Expr> },
    Assign { name: String, expr: Expr },
    Console { args: Vec<Expr> },
}

/// An entrypoint: its name, parameters, body and return types.
pub struct FunctionAst {
    pub name: String,
    pub params: Vec<ParamAst>,
    pub body: Vec<Statement>,
    pub return_types: Vec<TypeRef>,
}

/// A field of a struct declaration.
pub struct StructFieldSpec {
    pub name: String,
    pub type_ref: TypeRef,
}

/// A struct declaration: its fields in declaration order.
pub struct StructSpec {
    pub fields: Vec<StructFieldSpec>,
}

/// The fields of a struct declaration: name and type.
pub open spec fn struct_fields_view(s: StructSpec) -> Seq<(Seq<char>, TypeRefV)> {
    s.fields@.map_values(|f: StructFieldSpec| (f.name@, f.type_ref@))
}

/// The struct declarations in scope, by name.
pub struct StructRegistry {
    pub structs: Vec<(String, StructSpec)>,
}

/// The fields of the first struct named `name`.
pub open spec fn lookup_struct(es: Seq<(String, StructSpec)>, name: Seq<char>) -> Option<Seq<(Seq<char>, TypeRefV)>>
    decreases es.len(),
{
    if es.len() == 0 {
        None
    } else if es[0].0@ == name {
        Some(struct_fields_view(es[0].1))
    } else {
        lookup_struct(es.drop_first(), name)
    }
}

impl StructRegistry {
    /// The fields of the struct named `name`, if one is declared.
    pub open spec fn fields_of(&self, name: Seq<char>) -> Option<Seq<(Seq<char>, TypeRefV)>> {
        lookup_struct(self.structs@, name)
    }

    /// The declaration of the struct named `name`.
    pub fn get(&self, name: &str) -> (r: Option<&StructSpec>)
        ensures
            match r {
                Some(s) => self.fields_of(name@) == Some(struct_fields_view(*s)),
                None => self.fields_of(name@) is None,
            },
    {
        let wanted = name.to_owned();
        let mut i: usize = 0;
        assert(self.structs@.skip(0) == self.structs@);
        while i < self.structs.len()
            invariant
                wanted@ == name@,
                i <= self.structs@.len(),
                self.fields_of(name@) == lookup_struct(self.structs@.skip(i as int), name@),
            decreases self.structs@.len() - i,
        {
            assert(self.structs@.skip(i as int)[0] == self.structs@[i as int]);
            assert(self.structs@.skip(i as int).drop_first() == self.structs@.skip(i + 1));
            if self.structs[i].0 == wanted {
                return Some(&self.structs[i].1);
            }
            i = i + 1;
        }
        None
    }
}


/// A builtin function: the opcodes that follow its evaluated arguments, and whether it
/// leaves a value on the stack.
pub struct BuiltinSpec {
    pub ops: Vec<u8>,
    pub returns_value: bool,
}

/// The builtin functions that calls may name, by name.
pub struct BuiltinRegistry {
    pub builtins: Vec<(String, BuiltinSpec)>,
}

/// The opcodes and the value flag of the first builtin named `name`.
pub open spec fn lookup_builtin(es: Seq<(String, BuiltinSpec)>, name: Seq<char>) -> Option<(Seq<u8>, bool)>
    decreases es.len(),
{
    if es.len() == 0 {
        None
    } else if es[0].0@ == name {
        Some((es[0].1.ops@, es[0].1.returns_value))
    } else {
        lookup_builtin(es.drop_first(), name)
    }
}

impl BuiltinRegistry {
    /// The opcodes and the value flag of the builtin named `name`, if there is one.
    pub open spec fn builtin_of(&self, name: Seq<char>) -> Option<(Seq<u8>, bool)> {
        lookup_builtin(self.builtins@, name)
    }

    /// The builtin named `name`.
    pub fn get(&self, name: &str) -> (r: Option<&BuiltinSpec>)
        ensures
            match r {
                Some(b) => self.builtin_of(name@) == Some((b.ops@, b.returns_value)),
                None => self.builtin_of(name@) is None,
            },
    {
        let wanted = name.to_owned();
        let mut i: usize = 0;
        assert(self.builtins@.skip(0) == self.builtins@);
        while i < self.builtins.len()
            invariant
                wanted@ == name@,
                i <= self.builtins@.len(),
                self.builtin_of(name@) == lookup_builtin(self.builtins@.skip(i as int), name@),
            decreases self.builtins@.len() - i,
        {
            assert(self.builtins@.skip(i as int)[0] == self.builtins@[i as int]);
            assert(self.builtins@.skip(i as int).drop_first() == self.builtins@.skip(i + 1));
            if self.builtins[i].0 == wanted {
                return Some(&self.builtins[i].1);
            }
            i = i + 1;
        }
        None
    }
}

} // verus!
