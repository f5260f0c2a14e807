use vstd::prelude::*;
use crate::ast::decl::{FnDecl, VarDecl, VarDeclStmt, VarDeclStmtInner, VarDef};
use crate::ast::types::{TypeSpecifier, TypeSpecifierInner};
use crate::ir::error::Error;
use crate::ir::types::{dtype_eq, dtype_equiv, lemma_dtype_equiv_symm, lemma_dtype_equiv_trans, Dtype, FunctionType};
use crate::ir::value::Named;

verus! {

/// The IR type of a written type: built-ins are `i32`, a named type is a
/// struct, `&[T]` is a pointer to an unsized array of `T`, `[T; n]` is an
/// array of `n` elements.
pub open spec fn spec_dtype_of(ts: TypeSpecifier) -> Dtype
    decreases ts,
{
    match ts.inner {
        TypeSpecifierInner::BuiltIn(_) => Dtype::I32,
        TypeSpecifierInner::Composite(name) => Dtype::Struct { struct_name: name },
        TypeSpecifierInner::Reference(inner) => Dtype::Pointer {
            pointee: Box::new(Dtype::Array { element: Box::new(spec_dtype_of(*inner)), length: None }),
        },
        TypeSpecifierInner::Array(inner, size) => Dtype::Array {
            element: Box::new(spec_dtype_of(*inner)),
            length: Some(size),
        },
    }
}

/// The IR type of an optional written type: `i32` when none is written.
pub open spec fn spec_base_dtype(ts: Option<TypeSpecifier>) -> Dtype {
    match ts {
        Some(t) => spec_dtype_of(t),
        None => Dtype::I32,
    }
}

/// The IR type of a written type.
pub fn dtype_of(ts: &TypeSpecifier) -> (r: Dtype)
    ensures
        r == spec_dtype_of(*ts),
    decreases ts,
{
    match &ts.inner {
        TypeSpecifierInner::BuiltIn(_) => Dtype::I32,
        TypeSpecifierInner::Composite(name) => Dtype::Struct { struct_name: name.clone() },
        TypeSpecifierInner::Reference(inner) => Dtype::ptr_to(
            Dtype::Array { element: Box::new(dtype_of(&**inner)), length: None },
        ),
        TypeSpecifierInner::Array(inner, size) => Dtype::array_of(dtype_of(&**inner), *size),
    }
}

/// The IR type of an optional written type.
pub fn base_dtype(ts: &Option<TypeSpecifier>) -> (r: Dtype)
    ensures
        r == spec_base_dtype(*ts),
{
    match ts {
        Some(t) => dtype_of(t),
        None => Dtype::I32,
    }
}

/// The type of a declared variable.
pub fn var_decl_dtype(decl: &VarDecl) -> (r: Result<Dtype, Error>)
    ensures
        r == Ok::<Dtype, Error>(spec_base_dtype(decl.type_specifier)),
{
    Ok(base_dtype(&decl.type_specifier))
}

/// The type of a defined variable; a struct cannot be given an initial value.
pub fn var_def_dtype(def: &VarDef) -> (r: Result<Dtype, Error>)
    ensures
        spec_base_dtype(def.type_specifier) is Struct ==> r == Err::<Dtype, Error>(Error::StructInitialization),
        !(spec_base_dtype(def.type_specifier) is Struct) ==> r == Ok::<Dtype, Error>(spec_base_dtype(def.type_specifier)),
{
    let dtype = base_dtype(&def.type_specifier);
    if let Dtype::Struct { .. } = &dtype {
        return Err(Error::StructInitialization);
    }
    Ok(dtype)
}

/// The type of the variable of a `let` statement.
pub fn var_decl_stmt_dtype(stmt: &VarDeclStmt) -> (r: Result<Dtype, Error>)
    ensures
        stmt.inner matches VarDeclStmtInner::Decl(d) ==> r == Ok::<Dtype, Error>(spec_base_dtype(d.type_specifier)),
        stmt.inner matches VarDeclStmtInner::Def(d) ==> (
            if spec_base_dtype(d.type_specifier) is Struct {
                r == Err::<Dtype, Error>(Error::StructInitialization)
            } else {
                r == Ok::<Dtype, Error>(spec_base_dtype(d.type_specifier))
            }),
{
    match &stmt.inner {
        VarDeclStmtInner::Decl(d) => var_decl_dtype(&**d),
        VarDeclStmtInner::Def(d) => var_def_dtype(&**d),
    }
}

impl Named for VarDecl {
    open spec fn spec_identifier(&self) -> Option<Seq<char>> {
        Some(self.identifier@)
    }

    fn identifier(&self) -> (r: Option<String>) {
        Some(self.identifier.clone())
    }
}

impl Named for VarDef {
    open spec fn spec_identifier(&self) -> Option<Seq<char>> {
        Some(self.identifier@)
    }

    fn identifier(&self) -> (r: Option<String>) {
        Some(self.identifier.clone())
    }
}

impl Named for VarDeclStmt {
    open spec fn spec_identifier(&self) -> Option<Seq<char>> {
        match self.inner {
            VarDeclStmtInner::Decl(d) => Some(d.identifier@),
            VarDeclStmtInner::Def(d) => Some(d.identifier@),
        }
    }

    fn identifier(&self) -> (r: Option<String>) {
        match &self.inner {
            VarDeclStmtInner::Decl(d) => Some(d.identifier.clone()),
            VarDeclStmtInner::Def(d) => Some(d.identifier.clone()),
        }
    }
}

/// The parameters that a function declaration lists.
pub open spec fn decl_params(decl: FnDecl) -> Seq<VarDecl> {
    match decl.param_decl {
        Some(p) => p.decls@,
        None => Seq::empty(),
    }
}

/// Whether a signature agrees with a declaration: the same return type
/// (`void` when none is written) and the same parameters, by name and type,
/// in order.
pub open spec fn signature_matches(ft: FunctionType, decl: FnDecl) -> bool {
    let ret = match decl.return_dtype {
        Some(t) => spec_dtype_of(t),
        None => Dtype::Void,
    };
    let params = decl_params(decl);
    &&& dtype_equiv(ft.return_dtype, ret)
    &&& ft.arguments@.len() == params.len()
    &&& forall|i: int| 0 <= i < params.len() ==> {
        &&& (#[trigger] ft.arguments@[i]).0@ == params[i].identifier@
        &&& dtype_equiv(ft.arguments@[i].1, spec_base_dtype(params[i].type_specifier))
    }
}

impl FunctionType {
    /// Whether this signature agrees with the declaration `rhs`.
    pub fn matches_decl(&self, rhs: &FnDecl) -> (r: bool)
        ensures
            r == signature_matches(*self, *rhs),
    {
        let rhs_dtype = match &rhs.return_dtype {
            Some(t) => dtype_of(t),
            None => Dtype::Void,
        };
        if !dtype_eq(&self.return_dtype, &rhs_dtype) {
            return false;
        }
        let params: &[VarDecl] = match &rhs.param_decl {
            Some(p) => p.decls.as_slice(),
            None => &[],
        };
        assert(params@ == decl_params(*rhs));
        if self.arguments.len() != params.len() {
            return false;
        }
        let mut i: usize = 0;
        while i < params.len()
            invariant
                i <= params@.len(),
                params@ == decl_params(*rhs),
                self.arguments@.len() == params@.len(),
                dtype_equiv(self.return_dtype, match rhs.return_dtype {
                    Some(t) => spec_dtype_of(t),
                    None => Dtype::Void,
                }),
                forall|j: int| 0 <= j < i ==> {
                    &&& (#[trigger] self.arguments@[j]).0@ == params@[j].identifier@
                    &&& dtype_equiv(self.arguments@[j].1, spec_base_dtype(params@[j].type_specifier))
                },
            decreases params@.len() - i,
        {
            let dtype = match var_decl_dtype(&params[i]) {
                Ok(t) => t,
                Err(_) => return false,
            };
            if !(self.arguments[i].0 == params[i].identifier) || !dtype_eq(&self.arguments[i].1, &dtype) {
                return false;
            }
            i += 1;
        }
        true
    }
}

/// Two signatures that match the same declaration agree: the same return
/// type, the same number of parameters, and parameter by parameter the same
/// name and the same type.
pub proof fn lemma_matching_signatures_agree(f: FunctionType, g: FunctionType, decl: FnDecl)
    requires
        signature_matches(f, decl),
        signature_matches(g, decl),
    ensures
        dtype_equiv(f.return_dtype, g.return_dtype),
        f.arguments@.len() == g.arguments@.len(),
        forall|i: int|
            0 <= i < f.arguments@.len() ==> (#[trigger] f.arguments@[i]).0@ == g.arguments@[i].0@ && dtype_equiv(
                f.arguments@[i].1,
                g.arguments@[i].1,
            ),
{
    let ret = match decl.return_dtype {
        Some(t) => spec_dtype_of(t),
        None => Dtype::Void,
    };
    lemma_dtype_equiv_symm(g.return_dtype, ret);
    lemma_dtype_equiv_trans(f.return_dtype, ret, g.return_dtype);
    let params = decl_params(decl);
    assert forall|i: int| 0 <= i < f.arguments@.len() implies (#[trigger] f.arguments@[i]).0@ == g.arguments@[i].0@
        && dtype_equiv(f.arguments@[i].1, g.arguments@[i].1) by {
        let t = spec_base_dtype(params[i].type_specifier);
        assert(dtype_equiv(f.arguments@[i].1, t));
        assert(dtype_equiv(g.arguments@[i].1, t));
        lemma_dtype_equiv_symm(g.arguments@[i].1, t);
        lemma_dtype_equiv_trans(f.arguments@[i].1, t, g.arguments@[i].1);
    }
}

/// What a matching signature gives each parameter, by how it is written: no
/// type or a built-in type is `i32`; a named type is that struct; `&[T]` is a
/// pointer to an unsized array; `[T; n]` is an array of `n` elements.
pub proof fn lemma_matching_parameter_types(f: FunctionType, decl: FnDecl, i: int)
    requires
        signature_matches(f, decl),
        0 <= i < decl_params(decl).len(),
    ensures
        decl_params(decl)[i].type_specifier matches Some(t) ==> (t.inner is BuiltIn ==> f.arguments@[i].1 is I32),
        decl_params(decl)[i].type_specifier is None ==> f.arguments@[i].1 is I32,
        decl_params(decl)[i].type_specifier matches Some(t) ==> (t.inner is Composite ==> (f.arguments@[i].1 matches Dtype::Struct {
            struct_name,
        } && struct_name@ == t.inner->Composite_0@)),
        decl_params(decl)[i].type_specifier matches Some(t) ==> (t.inner is Reference ==> (f.arguments@[i].1 matches Dtype::Pointer {
            pointee,
        } && (*pointee matches Dtype::Array { length: None, .. }))),
        decl_params(decl)[i].type_specifier matches Some(t) ==> (t.inner is Array ==> (f.arguments@[i].1 matches Dtype::Array {
            length,
            ..
        } && length == Some(t.inner->Array_1))),
{
    let a = f.arguments@[i].1;
    assert(dtype_equiv(a, spec_base_dtype(decl_params(decl)[i].type_specifier)));
    if let Some(t) = decl_params(decl)[i].type_specifier {
        if let TypeSpecifierInner::Reference(inner) = t.inner {
            if let Dtype::Pointer { pointee } = a {
                assert(dtype_equiv(*pointee, Dtype::Array { element: Box::new(spec_dtype_of(*inner)), length: None }));
            }
        }
    }
}

} // verus!
