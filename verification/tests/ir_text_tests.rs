use teac::ast::decl::{VarDeclStmt, VarDeclStmtInner};
use teac::ir::conversions::var_decl_stmt_dtype;
use teac::ir::value::Named;
use teac::ast::decl::{FnDecl, ParamDecl, VarDecl, VarDef, VarDefInit};
use teac::ast::expr::{ArithExpr, ArithExprInner, ExprUnit, ExprUnitInner, RightVal, RightValInner};
use teac::ast::types::{BuiltIn, TypeSpecifier, TypeSpecifierInner};
use teac::common::text::{push_signed_decimal, usize_to_decimal};
use teac::ir::conversions::{base_dtype, dtype_of, var_decl_dtype, var_def_dtype};
use teac::ir::error::Error;
use teac::ir::printer::IrPrinter;
use teac::ir::types::{dtype_eq, dtype_to_string, Dtype, FunctionType, StructMember, StructType};
use teac::ir::value::GlobalVariable;

fn ts(inner: TypeSpecifierInner) -> TypeSpecifier {
    TypeSpecifier { pos: 0, inner }
}

fn int_ts() -> TypeSpecifier {
    ts(TypeSpecifierInner::BuiltIn(BuiltIn::Int))
}

fn param(name: &str, t: Option<TypeSpecifier>) -> VarDecl {
    VarDecl { pos: 0, identifier: name.to_string(), type_specifier: t }
}

fn zero() -> RightVal {
    RightVal {
        inner: RightValInner::ArithExpr(Box::new(ArithExpr {
            pos: 0,
            inner: ArithExprInner::ExprUnit(Box::new(ExprUnit { pos: 0, inner: ExprUnitInner::Num(0) })),
        })),
    }
}

#[test]
fn decimal_text() {
    assert_eq!(usize_to_decimal(0), "0");
    assert_eq!(usize_to_decimal(40213), "40213");
    let mut s = String::from("x=");
    push_signed_decimal(&mut s, -9223372036854775808);
    assert_eq!(s, "x=-9223372036854775808");
}

#[test]
fn dtype_text_forms() {
    assert_eq!(dtype_to_string(&Dtype::I32), "i32");
    assert_eq!(dtype_to_string(&Dtype::I1), "i1");
    assert_eq!(dtype_to_string(&Dtype::Void), "void");
    assert_eq!(dtype_to_string(&Dtype::Undecided), "?");
    assert_eq!(dtype_to_string(&Dtype::ptr_to(Dtype::I32)), "ptr");
    assert_eq!(dtype_to_string(&Dtype::Struct { struct_name: "Node".to_string() }), "%Node");
    assert_eq!(dtype_to_string(&Dtype::array_of(Dtype::array_of(Dtype::I32, 3), 2)), "[2 x [3 x i32]]");
    assert_eq!(
        dtype_to_string(&Dtype::Array { element: Box::new(Dtype::I32), length: None }),
        "i32"
    );
}

#[test]
fn dtype_equality_and_struct_names() {
    let a = Dtype::array_of(Dtype::Struct { struct_name: "S".to_string() }, 4);
    let b = Dtype::array_of(Dtype::Struct { struct_name: "S".to_string() }, 4);
    let c = Dtype::array_of(Dtype::Struct { struct_name: "S".to_string() }, 5);
    assert!(dtype_eq(&a, &b));
    assert!(!dtype_eq(&a, &c));
    assert_eq!(a.struct_type_name().map(|s| s.as_str()), Some("S"));
    assert_eq!(Dtype::ptr_to(a.clone()).struct_type_name().map(|s| s.as_str()), Some("S"));
    assert!(Dtype::I32.struct_type_name().is_none());
}

#[test]
fn written_types_become_ir_types() {
    let slice = ts(TypeSpecifierInner::Reference(Box::new(int_ts())));
    let d = dtype_of(&slice);
    assert!(dtype_eq(&d, &Dtype::ptr_to(Dtype::Array { element: Box::new(Dtype::I32), length: None })));
    let arr = ts(TypeSpecifierInner::Array(Box::new(ts(TypeSpecifierInner::Composite("P".to_string()))), 8));
    assert!(dtype_eq(&dtype_of(&arr), &Dtype::array_of(Dtype::Struct { struct_name: "P".to_string() }, 8)));
    assert!(dtype_eq(&base_dtype(&None), &Dtype::I32));
}

#[test]
fn struct_variables_cannot_be_initialised() {
    let def = VarDef {
        pos: 0,
        identifier: "n".to_string(),
        type_specifier: Some(ts(TypeSpecifierInner::Composite("Node".to_string()))),
        init: VarDefInit::Scalar(Box::new(zero())),
    };
    assert!(matches!(var_def_dtype(&def), Err(Error::StructInitialization)));
    let def = VarDef { pos: 0, identifier: "k".to_string(), type_specifier: None, init: VarDefInit::Scalar(Box::new(zero())) };
    assert!(matches!(var_def_dtype(&def), Ok(Dtype::I32)));
    let decl = param("n", Some(ts(TypeSpecifierInner::Composite("Node".to_string()))));
    assert!(matches!(var_decl_dtype(&decl), Ok(Dtype::Struct { .. })));
}

#[test]
fn signatures_match_declarations() {
    let ft = FunctionType {
        return_dtype: Dtype::I32,
        arguments: vec![("x".to_string(), Dtype::I32), ("a".to_string(), Dtype::ptr_to(Dtype::Array { element: Box::new(Dtype::I32), length: None }))],
    };
    let decl = FnDecl {
        pos: 0,
        identifier: "f".to_string(),
        param_decl: Some(ParamDecl {
            decls: vec![param("x", Some(int_ts())), param("a", Some(ts(TypeSpecifierInner::Reference(Box::new(int_ts())))))],
        }),
        return_dtype: Some(int_ts()),
    };
    assert!(ft.matches_decl(&decl));
    let renamed = FnDecl {
        pos: 0,
        identifier: "f".to_string(),
        param_decl: Some(ParamDecl { decls: vec![param("y", Some(int_ts())), param("a", None)] }),
        return_dtype: Some(int_ts()),
    };
    assert!(!ft.matches_decl(&renamed));
    let void = FunctionType { return_dtype: Dtype::Void, arguments: vec![] };
    let no_ret = FnDecl { pos: 0, identifier: "g".to_string(), param_decl: None, return_dtype: None };
    assert!(void.matches_decl(&no_ret));
    assert!(!ft.matches_decl(&no_ret));
}

#[test]
fn printer_header_and_newline() {
    let mut p = IrPrinter::new();
    p.emit_header("aarch64-unknown-linux-gnu", "e-m:e");
    p.emit_newline();
    assert_eq!(p.text, "target triple = \"aarch64-unknown-linux-gnu\"\ntarget datalayout = \"e-m:e\"\n\n\n");
}

#[test]
fn printer_struct_type() {
    let mut p = IrPrinter::new();
    let st = StructType {
        elements: vec![
            ("value".to_string(), StructMember { offset: 0, dtype: Dtype::I32 }),
            ("next".to_string(), StructMember { offset: 8, dtype: Dtype::ptr_to(Dtype::I32) }),
        ],
    };
    p.emit_struct_type("Node", &st);
    assert_eq!(p.text, "%Node = type { i32, ptr }\n");
}

#[test]
fn printer_globals() {
    let mut p = IrPrinter::new();
    p.emit_global(&GlobalVariable { dtype: Dtype::I32, identifier: "n".to_string(), initializers: None });
    p.emit_global(&GlobalVariable { dtype: Dtype::array_of(Dtype::I32, 3), identifier: "a".to_string(), initializers: None });
    p.emit_global(&GlobalVariable { dtype: Dtype::array_of(Dtype::I32, 3), identifier: "b".to_string(), initializers: Some(vec![1, -2, 3]) });
    p.emit_global(&GlobalVariable { dtype: Dtype::I32, identifier: "c".to_string(), initializers: Some(vec![5]) });
    assert_eq!(
        p.text,
        "@n = dso_local global i32 0, align 4\n\
         @a = dso_local global [3 x i32] zeroinitializer, align 4\n\
         @b = dso_local global [3 x i32] [i32 1, i32 -2, i32 3], align 4\n\
         @c = dso_local global i32 5, align 4\n"
    );
}

#[test]
fn printer_function_declaration() {
    let mut p = IrPrinter::new();
    let ft = FunctionType { return_dtype: Dtype::I32, arguments: vec![("a".to_string(), Dtype::I32), ("p".to_string(), Dtype::ptr_to(Dtype::I32))] };
    p.emit_function_decl("getint", &ft);
    assert_eq!(p.text, "declare dso_local i32 @getint(i32, ptr)\n\n");
}

#[test]
fn let_statement_types_and_names() {
    let decl = VarDeclStmt { pos: 0, inner: VarDeclStmtInner::Decl(Box::new(param("arr", Some(ts(TypeSpecifierInner::Array(Box::new(int_ts()), 4)))))) };
    assert!(matches!(var_decl_stmt_dtype(&decl), Ok(Dtype::Array { length: Some(4), .. })));
    assert_eq!(decl.identifier(), Some("arr".to_string()));
    let def = VarDeclStmt {
        pos: 0,
        inner: VarDeclStmtInner::Def(Box::new(VarDef {
            pos: 0,
            identifier: "s".to_string(),
            type_specifier: Some(ts(TypeSpecifierInner::Composite("S".to_string()))),
            init: VarDefInit::Array(vec![zero()]),
        })),
    };
    assert!(matches!(var_decl_stmt_dtype(&def), Err(Error::StructInitialization)));
    assert_eq!(def.identifier(), Some("s".to_string()));
}
