use vstd::prelude::*;

verus! {

/// The state builtins whose compilation can fail for a reason of their own.
#[derive(PartialEq, Eq, Structural, Clone, Copy, Debug)]
pub enum StateBuiltin {
    ReadInputState,
    ReadInputStateWithTemplate,
    ValidateOutputState,
    ValidateOutputStateWithTemplate,
}

/// Why compilation stopped.
#[derive(Debug)]
pub enum CompilerError {
    /// A checked offset or size computation left the range of `usize`.
    ArithmeticOverflow,
    /// A push payload is too long for any push opcode.
    PayloadTooLarge,
    /// The script builder refused to extend the script.
    ScriptRejected,
    /// A state builtin was given a field type without a fixed encoding.
    UnsupportedFieldType(StateBuiltin),
    /// A state builtin was called with the wrong number of arguments.
    ArgumentCount(StateBuiltin),
    /// A state builtin needs contract state fields and the contract has none.
    MissingContractFields(StateBuiltin),
    /// A templated state read whose target layout has no fields.
    EmptyStateLayout(StateBuiltin),
    /// A state builtin needs the script's own size, which is not known.
    MissingBytecodeSize(StateBuiltin),
    /// The bindings of a state read do not name every field exactly once.
    IncompleteBindings(StateBuiltin),
    /// Two bindings of one state read name the same field.
    DuplicateStateField(String),
    /// A binding of a state read has a type other than its field's.
    BindingType(String),
    /// A struct name that the registry does not know.
    UnknownStruct(String),
    /// An entrypoint parameter whose exact size does not fit a script number.
    ParameterTooLarge(String),
    /// A variable definition without an initializer.
    MissingInitializer,
    /// A variable that is already bound.
    AlreadyDefined(String),
    /// A name that is bound nowhere.
    UndefinedIdentifier(String),
    /// A reassigned variable that does not live on the stack.
    NotStackBound(String),
    /// A tuple assignment whose right side is not `split()`.
    TupleAssignmentSource,
    /// A call of a function that inline lowering should have removed.
    UnloweredCall(String),
    /// A call-with-assignment that inline lowering should have removed.
    UnloweredCallAssign(String),
    /// A state destructuring assignment from something other than a state read.
    UnsupportedStateAssignment(String),
    /// An expression form that the expression compiler does not handle.
    UnsupportedExpression,
    /// A loop, which loop lowering removes before code generation.
    UnloweredLoop,
    /// A struct destructuring, which struct lowering removes before code generation.
    UnloweredStructDestructure,
    /// A `return` anywhere but at the end of an entrypoint's body.
    MisplacedReturn,
    /// The two sides of a stack reordering do not hold the same bindings.
    StackMismatch,
}

} // verus!
