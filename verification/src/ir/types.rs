use vstd::prelude::*;
use crate::common::text::{decimal, push_char, push_decimal, push_str};

verus! {

/// The type of an IR value.
#[derive(Debug)]
pub enum Dtype {
    Void,
    I1,
    I32,
    Struct { struct_name: String },
    Pointer { pointee: Box<Dtype> },
    Array { element: Box<Dtype>, length: Option<usize> },
    Undecided,
}

impl Clone for Dtype {
    fn clone(&self) -> (r: Self)
        ensures
            r == *self,
        decreases self,
    {
        match self {
            Dtype::Void => Dtype::Void,
            Dtype::I1 => Dtype::I1,
            Dtype::I32 => Dtype::I32,
            Dtype::Struct { struct_name } => Dtype::Struct { struct_name: struct_name.clone() },
            Dtype::Pointer { pointee } => Dtype::Pointer {
                pointee: Box::new((**pointee).clone()),
            },
            Dtype::Array { element, length } => Dtype::Array {
                element: Box::new((**element).clone()),
                length: *length,
            },
            Dtype::Undecided => Dtype::Undecided,
        }
    }
}

impl Dtype {
    /// A pointer to `pointee`.
    pub fn ptr_to(pointee: Self) -> (r: Self)
        ensures
            r == (Dtype::Pointer { pointee: Box::new(pointee) }),
    {
        Self::Pointer { pointee: Box::new(pointee) }
    }

    /// An array of `len` elements of type `elem`.
    pub fn array_of(elem: Self, len: usize) -> (r: Self)
        ensures
            r == (Dtype::Array { element: Box::new(elem), length: Some(len) }),
    {
        Self::Array { element: Box::new(elem), length: Some(len) }
    }

    /// The name of the struct type that this type is, points to or holds.
    pub open spec fn spec_struct_type_name(&self) -> Option<Seq<char>>
        decreases self,
    {
        match self {
            Dtype::Struct { struct_name } => Some(struct_name@),
            Dtype::Pointer { pointee } => pointee.spec_struct_type_name(),
            Dtype::Array { element, .. } => element.spec_struct_type_name(),
            _ => None,
        }
    }

    /// The name of the struct type that this type is, points to or holds.
    pub fn struct_type_name(&self) -> (r: Option<&String>)
        ensures
            r.is_some() == self.spec_struct_type_name().is_some(),
            r matches Some(s) ==> self.spec_struct_type_name() == Some(s@),
        decreases self,
    {
        match self {
            Dtype::Struct { struct_name } => Some(struct_name),
            Dtype::Pointer { pointee } => pointee.struct_type_name(),
            Dtype::Array { element, .. } => element.struct_type_name(),
            _ => None,
        }
    }
}


/// Whether two types are the same: struct types by their names.
pub open spec fn dtype_equiv(a: Dtype, b: Dtype) -> bool
    decreases a,
{
    match (a, b) {
        (Dtype::Void, Dtype::Void) => true,
        (Dtype::I1, Dtype::I1) => true,
        (Dtype::I32, Dtype::I32) => true,
        (Dtype::Undecided, Dtype::Undecided) => true,
        (Dtype::Struct { struct_name: x }, Dtype::Struct { struct_name: y }) => x@ == y@,
        (Dtype::Pointer { pointee: x }, Dtype::Pointer { pointee: y }) => dtype_equiv(*x, *y),
        (Dtype::Array { element: x, length: m }, Dtype::Array { element: y, length: k }) => m == k
            && dtype_equiv(*x, *y),
        _ => false,
    }
}

/// `dtype_equiv` is symmetric.
pub proof fn lemma_dtype_equiv_symm(a: Dtype, b: Dtype)
    requires
        dtype_equiv(a, b),
    ensures
        dtype_equiv(b, a),
    decreases a,
{
    match (a, b) {
        (Dtype::Pointer { pointee: x }, Dtype::Pointer { pointee: y }) => lemma_dtype_equiv_symm(*x, *y),
        (Dtype::Array { element: x, .. }, Dtype::Array { element: y, .. }) => lemma_dtype_equiv_symm(*x, *y),
        _ => {},
    }
}

/// `dtype_equiv` is transitive.
pub proof fn lemma_dtype_equiv_trans(a: Dtype, b: Dtype, c: Dtype)
    requires
        dtype_equiv(a, b),
        dtype_equiv(b, c),
    ensures
        dtype_equiv(a, c),
    decreases a,
{
    match (a, b, c) {
        (Dtype::Pointer { pointee: x }, Dtype::Pointer { pointee: y }, Dtype::Pointer { pointee: z }) => lemma_dtype_equiv_trans(*x, *y, *z),
        (Dtype::Array { element: x, .. }, Dtype::Array { element: y, .. }, Dtype::Array { element: z, .. }) => lemma_dtype_equiv_trans(
            *x,
            *y,
            *z,
        ),
        _ => {},
    }
}

/// Decides `dtype_equiv`.
pub fn dtype_eq(a: &Dtype, b: &Dtype) -> (r: bool)
    ensures
        r == dtype_equiv(*a, *b),
    decreases a,
{
    match (a, b) {
        (Dtype::Void, Dtype::Void) => true,
        (Dtype::I1, Dtype::I1) => true,
        (Dtype::I32, Dtype::I32) => true,
        (Dtype::Undecided, Dtype::Undecided) => true,
        (Dtype::Struct { struct_name: x }, Dtype::Struct { struct_name: y }) => *x == *y,
        (Dtype::Pointer { pointee: x }, Dtype::Pointer { pointee: y }) => dtype_eq(&**x, &**y),
        (Dtype::Array { element: x, length: m }, Dtype::Array { element: y, length: k }) => {
            let same_len = match (m, k) {
                (Some(p), Some(q)) => *p == *q,
                (None, None) => true,
                _ => false,
            };
            same_len && dtype_eq(&**x, &**y)
        },
        _ => false,
    }
}

/// How a type is written in the textual IR.
pub open spec fn dtype_text(d: Dtype) -> Seq<char>
    decreases d,
{
    match d {
        Dtype::I1 => seq!['i', '1'],
        Dtype::I32 => seq!['i', '3', '2'],
        Dtype::Void => seq!['v', 'o', 'i', 'd'],
        Dtype::Struct { struct_name } => seq!['%'] + struct_name@,
        Dtype::Pointer { .. } => seq!['p', 't', 'r'],
        Dtype::Array { element, length } => match length {
            Some(n) => seq!['['] + decimal(n as nat) + seq![' ', 'x', ' '] + dtype_text(*element)
                + seq![']'],
            None => dtype_text(*element),
        },
        Dtype::Undecided => seq!['?'],
    }
}

/// Appends the textual form of `d` to `s`.
pub fn push_dtype(s: &mut String, d: &Dtype)
    ensures
        final(s)@ == old(s)@ + dtype_text(*d),
    decreases d,
{
    match d {
        Dtype::I1 => {
            push_char(s, 'i');
            push_char(s, '1');
        },
        Dtype::I32 => {
            push_char(s, 'i');
            push_char(s, '3');
            push_char(s, '2');
        },
        Dtype::Void => {
            push_char(s, 'v');
            push_char(s, 'o');
            push_char(s, 'i');
            push_char(s, 'd');
        },
        Dtype::Struct { struct_name } => {
            push_char(s, '%');
            push_str(s, struct_name.as_str());
        },
        Dtype::Pointer { .. } => {
            push_char(s, 'p');
            push_char(s, 't');
            push_char(s, 'r');
        },
        Dtype::Array { element, length } => match length {
            Some(n) => {
                push_char(s, '[');
                push_decimal(s, *n as u64);
                push_char(s, ' ');
                push_char(s, 'x');
                push_char(s, ' ');
                push_dtype(s, &**element);
                push_char(s, ']');
            },
            None => push_dtype(s, &**element),
        },
        Dtype::Undecided => push_char(s, '?'),
    }
    assert(final(s)@ =~= old(s)@ + dtype_text(*d));
}

/// The textual form of `d`.
pub fn dtype_to_string(d: &Dtype) -> (r: String)
    ensures
        r@ == dtype_text(*d),
{
    let mut s = String::new();
    push_dtype(&mut s, d);
    assert(s@ =~= dtype_text(*d));
    s
}

/// A member of a struct type: its byte offset and its type.
pub struct StructMember {
    pub offset: i32,
    pub dtype: Dtype,
}

/// A struct type: its members by name, in order.
pub struct StructType {
    pub elements: Vec<(String, StructMember)>,
}

/// A function's signature in the IR.
pub struct FunctionType {
    pub return_dtype: Dtype,
    pub arguments: Vec<(String, Dtype)>,
}

} // verus!
