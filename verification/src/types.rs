use vstd::prelude::*;

use crate::error::CompilerError;

verus! {

/// The base of a source type, before any array dimensions.
#[derive(Debug)]
pub enum TypeBase {
    Int,
    Bool,
    Byte,
    Temporal,
    String,
    Pubkey,
    Sig,
    Custom(String),
}

/// One array dimension: a fixed element count, or a length known only at run time.
#[derive(PartialEq, Eq, Structural, Clone, Copy, Debug)]
pub enum ArrayDim {
    Fixed(usize),
    Dynamic,
}

/// A source type: a base and its array dimensions, innermost first.
#[derive(Debug)]
pub struct TypeRef {
    pub base: TypeBase,
    pub array_dims: Vec<ArrayDim>,
}

/// The mathematical value of a [`TypeBase`].
pub enum TypeBaseV {
    Int,
    Bool,
    Byte,
    Temporal,
    String,
    Pubkey,
    Sig,
    Custom(Seq<char>),
}

/// The mathematical value of a [`TypeRef`].
pub struct TypeRefV {
    pub base: TypeBaseV,
    pub dims: Seq<ArrayDim>,
}

impl View for TypeBase {
    type V = TypeBaseV;

    open spec fn view(&self) -> TypeBaseV {
        match self {
            TypeBase::Int => TypeBaseV::Int,
            TypeBase::Bool => TypeBaseV::Bool,
            TypeBase::Byte => TypeBaseV::Byte,
            TypeBase::Temporal => TypeBaseV::Temporal,
            TypeBase::String => TypeBaseV::String,
            TypeBase::Pubkey => TypeBaseV::Pubkey,
            TypeBase::Sig => TypeBaseV::Sig,
            TypeBase::Custom(name) => TypeBaseV::Custom(name@),
        }
    }
}

impl View for TypeRef {
    type V = TypeRefV;

    open spec fn view(&self) -> TypeRefV {
        TypeRefV { base: self.base@, dims: self.array_dims@ }
    }
}

impl Clone for TypeBase {
    fn clone(&self) -> (r: Self)
        ensures
            r@ == self@,
    {
        match self {
            TypeBase::Int => TypeBase::Int,
            TypeBase::Bool => TypeBase::Bool,
            TypeBase::Byte => TypeBase::Byte,
            TypeBase::Temporal => TypeBase::Temporal,
            TypeBase::String => TypeBase::String,
            TypeBase::Pubkey => TypeBase::Pubkey,
            TypeBase::Sig => TypeBase::Sig,
            TypeBase::Custom(name) => TypeBase::Custom(name.clone()),
        }
    }
}

/// Copies a list of array dimensions.
pub fn clone_dims(dims: &Vec<ArrayDim>) -> (r: Vec<ArrayDim>)
    ensures
        r@ == dims@,
{
    let mut r: Vec<ArrayDim> = Vec::new();
    for i in 0..dims.len()
        invariant
            r@ == dims@.take(i as int),
    {
        r.push(dims[i]);
        assert(r@ == dims@.take(i + 1));
    }
    assert(dims@.take(dims.len() as int) == dims@);
    r
}

impl Clone for TypeRef {
    fn clone(&self) -> (r: Self)
        ensures
            r@ == self@,
    {
        TypeRef { base: self.base.clone(), array_dims: clone_dims(&self.array_dims) }
    }
}

/// The type `base` with no array dimensions.
pub fn scalar_type(base: TypeBase) -> (r: TypeRef)
    ensures
        r@ == (TypeRefV { base: base@, dims: Seq::empty() }),
{
    TypeRef { base, array_dims: Vec::new() }
}

/// The one-dimensional byte array type with the given dimension.
pub fn byte_array_type(dimension: ArrayDim) -> (r: TypeRef)
    ensures
        r@ == (TypeRefV { base: TypeBaseV::Byte, dims: seq![dimension] }),
{
    let mut array_dims = Vec::new();
    array_dims.push(dimension);
    TypeRef { base: TypeBase::Byte, array_dims }
}

/// Whether two bases are the same.
pub fn same_base(a: &TypeBase, b: &TypeBase) -> (r: bool)
    ensures
        r == (a@ == b@),
{
    match (a, b) {
        (TypeBase::Int, TypeBase::Int) => true,
        (TypeBase::Bool, TypeBase::Bool) => true,
        (TypeBase::Byte, TypeBase::Byte) => true,
        (TypeBase::Temporal, TypeBase::Temporal) => true,
        (TypeBase::String, TypeBase::String) => true,
        (TypeBase::Pubkey, TypeBase::Pubkey) => true,
        (TypeBase::Sig, TypeBase::Sig) => true,
        (TypeBase::Custom(x), TypeBase::Custom(y)) => *x == *y,
        _ => false,
    }
}

/// Whether two types are the same.
pub fn same_type(a: &TypeRef, b: &TypeRef) -> (r: bool)
    ensures
        r == (a@ == b@),
{
    if !same_base(&a.base, &b.base) {
        return false;
    }
    if a.array_dims.len() != b.array_dims.len() {
        return false;
    }
    for i in 0..a.array_dims.len()
        invariant
            a.array_dims@.len() == b.array_dims@.len(),
            forall|j: int| 0 <= j < i ==> a.array_dims@[j] == b.array_dims@[j],
    {
        if a.array_dims[i] != b.array_dims[i] {
            return false;
        }
    }
    assert(a.array_dims@ == b.array_dims@);
    true
}

/// Bytes taken by one value of a base type, where that size is fixed.
pub open spec fn base_size(base: TypeBaseV) -> Option<nat> {
    match base {
        TypeBaseV::Int => Some(8),
        TypeBaseV::Bool => Some(1),
        TypeBaseV::Byte => Some(1),
        TypeBaseV::Temporal => Some(8),
        TypeBaseV::Pubkey => Some(32),
        TypeBaseV::Sig => Some(65),
        TypeBaseV::String => None,
        TypeBaseV::Custom(_) => None,
    }
}

/// The fixed byte width of a base that is a byte sequence of its own (keys, signatures).
pub open spec fn base_byte_sequence_len(base: TypeBaseV) -> Option<nat> {
    match base {
        TypeBaseV::Pubkey => Some(32),
        TypeBaseV::Sig => Some(65),
        _ => None,
    }
}

/// Folds the dimensions, innermost first, into the size of `elem`-byte elements, the way
/// [`fixed_type_size`] does: a dynamic dimension has no fixed size, and a partial product
/// beyond `usize` is an overflow.
pub open spec fn size_fold(elem: nat, dims: Seq<ArrayDim>) -> Result<Option<nat>, CompilerError>
    decreases dims.len(),
{
    if dims.len() == 0 {
        Ok(Some(elem))
    } else {
        match size_fold(elem, dims.drop_last()) {
            Ok(Some(acc)) => match dims.last() {
                ArrayDim::Dynamic => Ok(None),
                ArrayDim::Fixed(n) => if acc * (n as nat) > usize::MAX {
                    Err(CompilerError::ArithmeticOverflow)
                } else {
                    Ok(Some(acc * (n as nat)))
                },
            },
            other => other,
        }
    }
}

/// The fixed encoded size of a type: `None` when it has none.
pub open spec fn spec_fixed_type_size(t: TypeRefV) -> Result<Option<nat>, CompilerError> {
    match base_size(t.base) {
        None => Ok(None),
        Some(elem) => size_fold(elem, t.dims),
    }
}

/// The product of fixed dimensions.
pub open spec fn dims_product(dims: Seq<ArrayDim>) -> nat
    decreases dims.len(),
{
    if dims.len() == 0 {
        1
    } else {
        dims_product(dims.drop_last()) * match dims.last() {
            ArrayDim::Fixed(n) => n as nat,
            ArrayDim::Dynamic => 0,
        }
    }
}

/// A fixed size is the element size times the product of the dimensions.
pub proof fn lemma_size_fold_product(elem: nat, dims: Seq<ArrayDim>)
    ensures
        size_fold(elem, dims) is Ok && size_fold(elem, dims)->Ok_0 is Some ==> size_fold(
            elem,
            dims,
        )->Ok_0->Some_0 == elem * dims_product(dims),
    decreases dims.len(),
{
    if dims.len() > 0 {
        lemma_size_fold_product(elem, dims.drop_last());
        if let Ok(Some(acc)) = size_fold(elem, dims.drop_last()) {
            if let ArrayDim::Fixed(n) = dims.last() {
                let p = dims_product(dims.drop_last());
                assert(acc == elem * p);
                assert(dims_product(dims) == p * (n as nat));
                assert(elem * p * (n as nat) == elem * (p * (n as nat))) by (nonlinear_arith);
                if acc * (n as nat) <= usize::MAX {
                    assert(size_fold(elem, dims) == Ok::<Option<nat>, CompilerError>(
                        Some(acc * (n as nat)),
                    ));
                }
            }
        }
    } else {
        assert(elem * 1 == elem) by (nonlinear_arith);
    }
}

pub fn fixed_type_size(t: &TypeRef) -> (r: Result<Option<usize>, CompilerError>)
    ensures
        match (r, spec_fixed_type_size(t@)) {
            (Ok(Some(n)), Ok(Some(m))) => n == m,
            (Ok(None), Ok(None)) => true,
            (Err(e), Err(f)) => e == f,
            _ => false,
        },
{
    let elem: usize = match &t.base {
        TypeBase::Int => 8,
        TypeBase::Bool => 1,
        TypeBase::Byte => 1,
        TypeBase::Temporal => 8,
        TypeBase::Pubkey => 32,
        TypeBase::Sig => 65,
        TypeBase::String => {
            return Ok(None);
        },
        TypeBase::Custom(_) => {
            return Ok(None);
        },
    };
    let dims = &t.array_dims;
    let mut acc = elem;
    for i in 0..dims.len()
        invariant
            base_size(t@.base) == Some(elem as nat),
            dims@ == t@.dims,
            size_fold(elem as nat, dims@.take(i as int)) == Ok::<Option<nat>, CompilerError>(
                Some(acc as nat),
            ),
    {
        assert(dims@.take(i + 1).drop_last() == dims@.take(i as int));
        match dims[i] {
            ArrayDim::Dynamic => {
                assert(size_fold(elem as nat, dims@.take(i + 1)) == Ok::<
                    Option<nat>,
                    CompilerError,
                >(None));
                proof { lemma_size_fold_absorbs(elem as nat, dims@, i + 1); }
                return Ok(None);
            },
            ArrayDim::Fixed(n) => {
                match acc.checked_mul(n) {
                    Some(next) => {
                        acc = next;
                    },
                    None => {
                        proof { lemma_size_fold_absorbs(elem as nat, dims@, i + 1); }
                        return Err(CompilerError::ArithmeticOverflow);
                    },
                }
            },
        }
    }
    assert(dims@.take(dims.len() as int) == dims@);
    Ok(Some(acc))
}

/// Once the fold has stopped (no fixed size, or an overflow), longer dimension lists stop
/// with the same answer.
pub proof fn lemma_size_fold_absorbs(elem: nat, dims: Seq<ArrayDim>, k: int)
    requires
        0 <= k <= dims.len(),
        !(size_fold(elem, dims.take(k)) is Ok && size_fold(elem, dims.take(k))->Ok_0 is Some),
    ensures
        size_fold(elem, dims) == size_fold(elem, dims.take(k)),
    decreases dims.len() - k,
{
    if k < dims.len() {
        assert(dims.take(k + 1).drop_last() == dims.take(k));
        lemma_size_fold_absorbs(elem, dims, k + 1);
    } else {
        assert(dims.take(k) == dims);
    }
}

impl TypeRef {
    /// Whether the type has at least one dimension.
    pub fn is_array(&self) -> (r: bool)
        ensures
            r == (self@.dims.len() > 0),
    {
        self.array_dims.len() > 0
    }

    /// Whether the outermost dimension is a run-time length.
    pub fn is_dynamic_array(&self) -> (r: bool)
        ensures
            r == (self@.dims.len() > 0 && self@.dims.last() == ArrayDim::Dynamic),
    {
        let n = self.array_dims.len();
        n > 0 && self.array_dims[n - 1] == ArrayDim::Dynamic
    }

    /// Whether the type is a single byte.
    pub fn is_byte(&self) -> (r: bool)
        ensures
            r == (self@.dims.len() == 0 && self@.base is Byte),
    {
        self.array_dims.len() == 0 && matches!(self.base, TypeBase::Byte)
    }

    /// Whether the type is a single bool.
    pub fn is_bool(&self) -> (r: bool)
        ensures
            r == (self@.dims.len() == 0 && self@.base is Bool),
    {
        self.array_dims.len() == 0 && matches!(self.base, TypeBase::Bool)
    }

    /// Whether the type is a single script number (an `int` or a `temporal`).
    pub fn is_int_like(&self) -> (r: bool)
        ensures
            r == (self@.dims.len() == 0 && (self@.base is Int || self@.base is Temporal)),
    {
        self.array_dims.len() == 0 && (matches!(self.base, TypeBase::Int) || matches!(
            self.base,
            TypeBase::Temporal
        ))
    }
}

impl TypeBase {
    /// The fixed width of a base that is a byte sequence of its own.
    pub fn fixed_byte_sequence_len(&self) -> (r: Option<usize>)
        ensures
            match (r, base_byte_sequence_len(self@)) {
                (Some(n), Some(m)) => n == m,
                (None, None) => true,
                _ => false,
            },
    {
        match self {
            TypeBase::Pubkey => Some(32),
            TypeBase::Sig => Some(65),
            _ => None,
        }
    }
}

/// The element type of an array type: its dimensions without the outermost one.
pub open spec fn element_type(t: TypeRefV) -> TypeRefV {
    TypeRefV { base: t.base, dims: t.dims.drop_last() }
}

/// The fixed size of one element of an array type, as a script number.
pub open spec fn spec_array_element_size(t: TypeRefV) -> Result<Option<int>, CompilerError> {
    match spec_fixed_type_size(element_type(t)) {
        Ok(Some(n)) => if n > i64::MAX {
            Err(CompilerError::ArithmeticOverflow)
        } else {
            Ok(Some(n as int))
        },
        Ok(None) => Ok(None),
        Err(e) => Err(e),
    }
}

pub fn array_element_size(t: &TypeRef) -> (r: Result<Option<i64>, CompilerError>)
    requires
        t@.dims.len() > 0,
    ensures
        match (r, spec_array_element_size(t@)) {
            (Ok(Some(n)), Ok(Some(m))) => n == m,
            (Ok(None), Ok(None)) => true,
            (Err(e), Err(f)) => e == f,
            _ => false,
        },
{
    let mut dims = clone_dims(&t.array_dims);
    dims.pop();
    let element = TypeRef { base: t.base.clone(), array_dims: dims };
    assert(element@ == element_type(t@));
    match fixed_type_size(&element)? {
        Some(n) => {
            if n as u64 > i64::MAX as u64 {
                Err(CompilerError::ArithmeticOverflow)
            } else {
                Ok(Some(n as i64))
            }
        },
        None => Ok(None),
    }
}

} // verus!
