use vstd::prelude::*;
use crate::common::text::{join, lemma_join_step, push_char, push_signed_decimal, push_str, signed_decimal};
use crate::ir::types::{dtype_text, push_dtype, Dtype, FunctionType, StructType};
use crate::ir::value::GlobalVariable;

verus! {

/// The separator of list items.
pub open spec fn comma() -> Seq<char> {
    seq![',', ' ']
}

/// The text of the module header.
pub open spec fn header_text(triple: Seq<char>, layout: Seq<char>) -> Seq<char> {
    "target triple = \""@ + triple + seq!['"', '\n'] + "target datalayout = \""@ + layout + seq!['"', '\n', '\n']
}

/// The text of a struct type definition: `%name = type { t1, t2 }`.
pub open spec fn struct_type_text(name: Seq<char>, st: StructType) -> Seq<char> {
    seq!['%'] + name + " = type { "@ + join(
        st.elements@.map_values(|e: (String, crate::ir::types::StructMember)| dtype_text(e.1.dtype)),
        comma(),
    ) + seq![' ', '}', '\n']
}

/// How each initializer of a global is written.
pub open spec fn init_texts(prefix: Seq<char>, inits: Seq<i32>) -> Seq<Seq<char>> {
    inits.map_values(|v: i32| prefix + seq![' '] + signed_decimal(v as int))
}

/// The initial value of a global as written in the IR.
pub open spec fn global_init_text(g: GlobalVariable) -> Seq<char> {
    match g.initializers {
        None => if g.dtype is I32 {
            seq!['0']
        } else {
            "zeroinitializer"@
        },
        Some(inits) => match g.dtype {
            Dtype::Array { element, .. } => seq!['['] + join(init_texts(dtype_text(*element), inits@), comma())
                + seq![']'],
            _ => if inits@.len() == 1 {
                signed_decimal(inits@[0] as int)
            } else {
                seq!['['] + join(init_texts(seq!['i', '3', '2'], inits@), comma()) + seq![']']
            },
        },
    }
}

/// The text of a global definition.
pub open spec fn global_text(g: GlobalVariable) -> Seq<char> {
    seq!['@'] + g.identifier@ + " = dso_local global "@ + dtype_text(g.dtype) + seq![' ']
        + global_init_text(g) + ", align 4\n"@
}

/// The text of a function declaration, followed by an empty line.
pub open spec fn function_decl_text(identifier: Seq<char>, ft: FunctionType) -> Seq<char> {
    "declare dso_local "@ + dtype_text(ft.return_dtype) + seq![' ', '@'] + identifier + seq!['(']
        + join(ft.arguments@.map_values(|a: (String, Dtype)| dtype_text(a.1)), comma())
        + seq![')', '\n', '\n']
}

/// Appends the initializers of a global, each behind `prefix` and a space,
/// separated by commas.
fn push_init_list(s: &mut String, prefix: &Dtype, plain: bool, inits: &Vec<i32>)
    ensures
        final(s)@ == old(s)@ + join(
            init_texts(if plain { seq!['i', '3', '2'] } else { dtype_text(*prefix) }, inits@),
            comma(),
        ),
{
    let ghost p: Seq<char> = if plain { seq!['i', '3', '2'] } else { dtype_text(*prefix) };
    let ghost parts = init_texts(p, inits@);
    let mut i: usize = 0;
    while i < inits.len()
        invariant
            i <= inits@.len(),
            parts == init_texts(p, inits@),
            p == (if plain { seq!['i', '3', '2'] } else { dtype_text(*prefix) }),
            s@ == old(s)@ + join(parts.take(i as int), comma()),
        decreases inits@.len() - i,
    {
        let ghost before = s@;
        if i > 0 {
            push_char(s, ',');
            push_char(s, ' ');
        }
        if plain {
            push_char(s, 'i');
            push_char(s, '3');
            push_char(s, '2');
        } else {
            push_dtype(s, prefix);
        }
        push_char(s, ' ');
        push_signed_decimal(s, inits[i] as i64);
        proof {
            lemma_join_step(parts, comma(), i as int);
            assert(parts[i as int] == p + seq![' '] + signed_decimal(inits@[i as int] as int));
            assert(s@ =~= old(s)@ + join(parts.take(i as int + 1), comma()));
        }
        i += 1;
    }
    assert(parts.take(inits@.len() as int) =~= parts);
}

/// Renders the textual IR of a module piece by piece.
pub struct IrPrinter {
    pub text: String,
}

impl IrPrinter {
    /// A printer with nothing written yet.
    pub fn new() -> (r: Self)
        ensures
            r.text@ == Seq::<char>::empty(),
    {
        IrPrinter { text: String::new() }
    }

    /// Writes the target triple and data layout lines and an empty line.
    pub fn emit_header(&mut self, target_triple: &str, datalayout: &str)
        ensures
            final(self).text@ == old(self).text@ + header_text(target_triple@, datalayout@),
    {
        push_str(&mut self.text, "target triple = \"");
        push_str(&mut self.text, target_triple);
        push_char(&mut self.text, '"');
        push_char(&mut self.text, '\n');
        push_str(&mut self.text, "target datalayout = \"");
        push_str(&mut self.text, datalayout);
        push_char(&mut self.text, '"');
        push_char(&mut self.text, '\n');
        push_char(&mut self.text, '\n');
        assert(self.text@ =~= old(self).text@ + header_text(target_triple@, datalayout@));
    }

    /// Writes the definition of the struct type `name`.
    pub fn emit_struct_type(&mut self, name: &str, st: &StructType)
        ensures
            final(self).text@ == old(self).text@ + struct_type_text(name@, *st),
    {
        let ghost parts = st.elements@.map_values(
            |e: (String, crate::ir::types::StructMember)| dtype_text(e.1.dtype),
        );
        let ghost start = self.text@;
        push_char(&mut self.text, '%');
        push_str(&mut self.text, name);
        push_str(&mut self.text, " = type { ");
        let ghost mid = self.text@;
        let mut i: usize = 0;
        while i < st.elements.len()
            invariant
                i <= st.elements@.len(),
                parts == st.elements@.map_values(
                    |e: (String, crate::ir::types::StructMember)| dtype_text(e.1.dtype),
                ),
                self.text@ == mid + join(parts.take(i as int), comma()),
            decreases st.elements@.len() - i,
        {
            if i > 0 {
                push_char(&mut self.text, ',');
                push_char(&mut self.text, ' ');
            }
            push_dtype(&mut self.text, &st.elements[i].1.dtype);
            proof {
                lemma_join_step(parts, comma(), i as int);
                assert(self.text@ =~= mid + join(parts.take(i as int + 1), comma()));
            }
            i += 1;
        }
        assert(parts.take(st.elements@.len() as int) =~= parts);
        push_char(&mut self.text, ' ');
        push_char(&mut self.text, '}');
        push_char(&mut self.text, '\n');
        assert(self.text@ =~= start + struct_type_text(name@, *st));
    }

    /// Writes the definition of a global variable.
    pub fn emit_global(&mut self, global: &GlobalVariable)
        ensures
            final(self).text@ == old(self).text@ + global_text(*global),
    {
        let ghost start = self.text@;
        push_char(&mut self.text, '@');
        push_str(&mut self.text, global.identifier.as_str());
        push_str(&mut self.text, " = dso_local global ");
        push_dtype(&mut self.text, &global.dtype);
        push_char(&mut self.text, ' ');
        let ghost mid = self.text@;
        match &global.initializers {
            None => {
                if let Dtype::I32 = &global.dtype {
                    push_char(&mut self.text, '0');
                } else {
                    push_str(&mut self.text, "zeroinitializer");
                }
            },
            Some(inits) => {
                if let Dtype::Array { element, .. } = &global.dtype {
                    push_char(&mut self.text, '[');
                    push_init_list(&mut self.text, &**element, false, inits);
                    push_char(&mut self.text, ']');
                } else if inits.len() == 1 {
                    push_signed_decimal(&mut self.text, inits[0] as i64);
                } else {
                    push_char(&mut self.text, '[');
                    push_init_list(&mut self.text, &global.dtype, true, inits);
                    push_char(&mut self.text, ']');
                }
            },
        }
        assert(self.text@ =~= mid + global_init_text(*global));
        push_str(&mut self.text, ", align 4\n");
        assert(self.text@ =~= start + global_text(*global));
    }

    /// Writes the declaration of an external function and an empty line.
    pub fn emit_function_decl(&mut self, identifier: &str, func_type: &FunctionType)
        ensures
            final(self).text@ == old(self).text@ + function_decl_text(identifier@, *func_type),
    {
        let ghost parts = func_type.arguments@.map_values(|a: (String, Dtype)| dtype_text(a.1));
        let ghost start = self.text@;
        push_str(&mut self.text, "declare dso_local ");
        push_dtype(&mut self.text, &func_type.return_dtype);
        push_char(&mut self.text, ' ');
        push_char(&mut self.text, '@');
        push_str(&mut self.text, identifier);
        push_char(&mut self.text, '(');
        let ghost mid = self.text@;
        let mut i: usize = 0;
        while i < func_type.arguments.len()
            invariant
                i <= func_type.arguments@.len(),
                parts == func_type.arguments@.map_values(|a: (String, Dtype)| dtype_text(a.1)),
                self.text@ == mid + join(parts.take(i as int), comma()),
            decreases func_type.arguments@.len() - i,
        {
            if i > 0 {
                push_char(&mut self.text, ',');
                push_char(&mut self.text, ' ');
            }
            push_dtype(&mut self.text, &func_type.arguments[i].1);
            proof {
                lemma_join_step(parts, comma(), i as int);
                assert(self.text@ =~= mid + join(parts.take(i as int + 1), comma()));
            }
            i += 1;
        }
        assert(parts.take(func_type.arguments@.len() as int) =~= parts);
        push_char(&mut self.text, ')');
        push_char(&mut self.text, '\n');
        push_char(&mut self.text, '\n');
        assert(self.text@ =~= start + function_decl_text(identifier@, *func_type));
    }

    /// Writes an empty line.
    pub fn emit_newline(&mut self)
        ensures
            final(self).text@ == old(self).text@.push('\n'),
    {
        push_char(&mut self.text, '\n');
    }
}

} // verus!
