use vstd::prelude::*;
use super::function::BlockLabel;
use super::value::{same_operand, Operand};

verus! {

/// An arithmetic operation.
#[derive(Debug, Clone, Copy, PartialEq, Eq, Structural)]
pub enum ArithBinOp {
    Add,
    Sub,
    Mul,
    Div,
}

/// A signed integer comparison.
#[derive(Debug, Clone, Copy, PartialEq, Eq, Structural)]
pub enum CmpPredicate {
    Eq,
    Ne,
    Slt,
    Sle,
    Sgt,
    Sge,
}

#[derive(Debug)]
pub struct AllocaStmt {
    pub dst: Operand,
}

#[derive(Debug)]
pub struct LoadStmt {
    pub dst: Operand,
    pub ptr: Operand,
}

#[derive(Debug)]
pub struct StoreStmt {
    pub src: Operand,
    pub ptr: Operand,
}

#[derive(Debug)]
pub struct GepStmt {
    pub new_ptr: Operand,
    pub base_ptr: Operand,
    pub index: Operand,
}

#[derive(Debug)]
pub struct BiOpStmt {
    pub op: ArithBinOp,
    pub left: Operand,
    pub right: Operand,
    pub dst: Operand,
}

#[derive(Debug)]
pub struct CmpStmt {
    pub op: CmpPredicate,
    pub left: Operand,
    pub right: Operand,
    pub dst: Operand,
}

#[derive(Debug)]
pub struct CJumpStmt {
    pub cond: Operand,
    pub true_label: BlockLabel,
    pub false_label: BlockLabel,
}

#[derive(Debug)]
pub struct JumpStmt {
    pub target: BlockLabel,
}

#[derive(Debug)]
pub struct LabelStmt {
    pub label: BlockLabel,
}

#[derive(Debug)]
pub struct CallStmt {
    pub func_name: String,
    pub result: Option<Operand>,
    pub args: Vec<Operand>,
}

#[derive(Debug)]
pub struct ReturnStmt {
    pub val: Option<Operand>,
}

/// `dst = phi [label_1: v_1], ...`: the value that arrives from the predecessor.
#[derive(Debug)]
pub struct PhiStmt {
    pub dst: Operand,
    pub incomings: Vec<(BlockLabel, Operand)>,
}

#[derive(Debug)]
pub enum StmtInner {
    Alloca(AllocaStmt),
    Load(LoadStmt),
    Store(StoreStmt),
    Gep(GepStmt),
    BiOp(BiOpStmt),
    Cmp(CmpStmt),
    CJump(CJumpStmt),
    Jump(JumpStmt),
    Label(LabelStmt),
    Call(CallStmt),
    Return(ReturnStmt),
    Phi(PhiStmt),
}

/// An IR statement.
#[derive(Debug)]
pub struct Stmt {
    pub inner: StmtInner,
}

pub open spec fn same_opt_operand(a: Option<Operand>, b: Option<Operand>) -> bool {
    match (a, b) {
        (Some(x), Some(y)) => same_operand(x, y),
        (None, None) => true,
        _ => false,
    }
}

pub open spec fn same_operands(a: Seq<Operand>, b: Seq<Operand>) -> bool {
    a.len() == b.len() && forall|i: int| 0 <= i < a.len() ==> same_operand(#[trigger] a[i], b[i])
}

pub open spec fn same_incomings(a: Seq<(BlockLabel, Operand)>, b: Seq<(BlockLabel, Operand)>) -> bool {
    a.len() == b.len() && forall|i: int|
        0 <= i < a.len() ==> (#[trigger] a[i]).0 == b[i].0 && same_operand(a[i].1, b[i].1)
}

/// Two statements are copies of each other.
pub open spec fn same_stmt(a: Stmt, b: Stmt) -> bool {
    match (a.inner, b.inner) {
        (StmtInner::Alloca(x), StmtInner::Alloca(y)) => same_operand(x.dst, y.dst),
        (StmtInner::Load(x), StmtInner::Load(y)) => same_operand(x.dst, y.dst) && same_operand(x.ptr, y.ptr),
        (StmtInner::Store(x), StmtInner::Store(y)) => same_operand(x.src, y.src) && same_operand(x.ptr, y.ptr),
        (StmtInner::Gep(x), StmtInner::Gep(y)) => same_operand(x.new_ptr, y.new_ptr) && same_operand(
            x.base_ptr,
            y.base_ptr,
        ) && same_operand(x.index, y.index),
        (StmtInner::BiOp(x), StmtInner::BiOp(y)) => x.op == y.op && same_operand(x.left, y.left)
            && same_operand(x.right, y.right) && same_operand(x.dst, y.dst),
        (StmtInner::Cmp(x), StmtInner::Cmp(y)) => x.op == y.op && same_operand(x.left, y.left)
            && same_operand(x.right, y.right) && same_operand(x.dst, y.dst),
        (StmtInner::CJump(x), StmtInner::CJump(y)) => same_operand(x.cond, y.cond) && x.true_label
            == y.true_label && x.false_label == y.false_label,
        (StmtInner::Jump(x), StmtInner::Jump(y)) => x.target == y.target,
        (StmtInner::Label(x), StmtInner::Label(y)) => x.label == y.label,
        (StmtInner::Call(x), StmtInner::Call(y)) => x.func_name@ == y.func_name@ && same_opt_operand(
            x.result,
            y.result,
        ) && same_operands(x.args@, y.args@),
        (StmtInner::Return(x), StmtInner::Return(y)) => same_opt_operand(x.val, y.val),
        (StmtInner::Phi(x), StmtInner::Phi(y)) => same_operand(x.dst, y.dst) && same_incomings(
            x.incomings@,
            y.incomings@,
        ),
        _ => false,
    }
}

fn clone_opt_operand(o: &Option<Operand>) -> (r: Option<Operand>)
    ensures
        same_opt_operand(r, *o),
{
    match o {
        Some(x) => Some(x.clone()),
        None => None,
    }
}

fn clone_operands(v: &Vec<Operand>) -> (r: Vec<Operand>)
    ensures
        same_operands(r@, v@),
{
    let mut r: Vec<Operand> = Vec::new();
    let mut k: usize = 0;
    while k < v.len()
        invariant
            k <= v.len(),
            r@.len() == k,
            forall|i: int| 0 <= i < k ==> same_operand(#[trigger] r@[i], v@[i]),
        decreases v.len() - k,
    {
        r.push(v[k].clone());
        k += 1;
    }
    r
}

/// A copy of a phi's incoming list.
pub fn clone_incomings(v: &Vec<(BlockLabel, Operand)>) -> (r: Vec<(BlockLabel, Operand)>)
    ensures
        same_incomings(r@, v@),
{
    let mut r: Vec<(BlockLabel, Operand)> = Vec::new();
    let mut k: usize = 0;
    while k < v.len()
        invariant
            k <= v.len(),
            r@.len() == k,
            forall|i: int| 0 <= i < k ==> (#[trigger] r@[i]).0 == v@[i].0 && same_operand(r@[i].1, v@[i].1),
        decreases v.len() - k,
    {
        let e = &v[k];
        r.push((e.0.clone(), e.1.clone()));
        k += 1;
    }
    r
}

impl Clone for Stmt {
    fn clone(&self) -> (r: Self)
        ensures
            same_stmt(r, *self),
    {
        let inner = match &self.inner {
            StmtInner::Alloca(x) => StmtInner::Alloca(AllocaStmt { dst: x.dst.clone() }),
            StmtInner::Load(x) => StmtInner::Load(LoadStmt { dst: x.dst.clone(), ptr: x.ptr.clone() }),
            StmtInner::Store(x) => StmtInner::Store(StoreStmt { src: x.src.clone(), ptr: x.ptr.clone() }),
            StmtInner::Gep(x) => StmtInner::Gep(
                GepStmt { new_ptr: x.new_ptr.clone(), base_ptr: x.base_ptr.clone(), index: x.index.clone() },
            ),
            StmtInner::BiOp(x) => StmtInner::BiOp(
                BiOpStmt { op: x.op, left: x.left.clone(), right: x.right.clone(), dst: x.dst.clone() },
            ),
            StmtInner::Cmp(x) => StmtInner::Cmp(
                CmpStmt { op: x.op, left: x.left.clone(), right: x.right.clone(), dst: x.dst.clone() },
            ),
            StmtInner::CJump(x) => StmtInner::CJump(
                CJumpStmt {
                    cond: x.cond.clone(),
                    true_label: x.true_label.clone(),
                    false_label: x.false_label.clone(),
                },
            ),
            StmtInner::Jump(x) => StmtInner::Jump(JumpStmt { target: x.target.clone() }),
            StmtInner::Label(x) => StmtInner::Label(LabelStmt { label: x.label.clone() }),
            StmtInner::Call(x) => StmtInner::Call(
                CallStmt {
                    func_name: x.func_name.clone(),
                    result: clone_opt_operand(&x.result),
                    args: clone_operands(&x.args),
                },
            ),
            StmtInner::Return(x) => StmtInner::Return(ReturnStmt { val: clone_opt_operand(&x.val) }),
            StmtInner::Phi(x) => StmtInner::Phi(
                PhiStmt { dst: x.dst.clone(), incomings: clone_incomings(&x.incomings) },
            ),
        };
        Stmt { inner }
    }
}

impl Stmt {
    /// Whether the statement ends a block: a jump, a conditional jump or a return.
    pub open spec fn spec_is_terminator(&self) -> bool {
        self.inner is Jump || self.inner is CJump || self.inner is Return
    }

    pub fn is_terminator(&self) -> (r: bool)
        ensures
            r == self.spec_is_terminator(),
    {
        matches!(self.inner, StmtInner::Jump(_) | StmtInner::CJump(_) | StmtInner::Return(_))
    }

    pub fn is_phi(&self) -> (r: bool)
        ensures
            r == (self.inner is Phi),
    {
        matches!(self.inner, StmtInner::Phi(_))
    }

    pub fn as_alloca(dst: Operand) -> (r: Self)
        ensures
            r == (Stmt { inner: StmtInner::Alloca(AllocaStmt { dst }) }),
    {
        Stmt { inner: StmtInner::Alloca(AllocaStmt { dst }) }
    }

    pub fn as_load(dst: Operand, ptr: Operand) -> (r: Self)
        ensures
            r == (Stmt { inner: StmtInner::Load(LoadStmt { dst, ptr }) }),
    {
        Stmt { inner: StmtInner::Load(LoadStmt { dst, ptr }) }
    }

    pub fn as_store(src: Operand, ptr: Operand) -> (r: Self)
        ensures
            r == (Stmt { inner: StmtInner::Store(StoreStmt { src, ptr }) }),
    {
        Stmt { inner: StmtInner::Store(StoreStmt { src, ptr }) }
    }

    pub fn as_gep(new_ptr: Operand, base_ptr: Operand, index: Operand) -> (r: Self)
        ensures
            r == (Stmt { inner: StmtInner::Gep(GepStmt { new_ptr, base_ptr, index }) }),
    {
        Stmt { inner: StmtInner::Gep(GepStmt { new_ptr, base_ptr, index }) }
    }

    pub fn as_biop(op: ArithBinOp, left: Operand, right: Operand, dst: Operand) -> (r: Self)
        ensures
            r == (Stmt { inner: StmtInner::BiOp(BiOpStmt { op, left, right, dst }) }),
    {
        Stmt { inner: StmtInner::BiOp(BiOpStmt { op, left, right, dst }) }
    }

    pub fn as_cmp(op: CmpPredicate, left: Operand, right: Operand, dst: Operand) -> (r: Self)
        ensures
            r == (Stmt { inner: StmtInner::Cmp(CmpStmt { op, left, right, dst }) }),
    {
        Stmt { inner: StmtInner::Cmp(CmpStmt { op, left, right, dst }) }
    }

    pub fn as_cjump(cond: Operand, true_label: BlockLabel, false_label: BlockLabel) -> (r: Self)
        ensures
            r == (Stmt { inner: StmtInner::CJump(CJumpStmt { cond, true_label, false_label }) }),
    {
        Stmt { inner: StmtInner::CJump(CJumpStmt { cond, true_label, false_label }) }
    }

    pub fn as_jump(target: BlockLabel) -> (r: Self)
        ensures
            r == (Stmt { inner: StmtInner::Jump(JumpStmt { target }) }),
    {
        Stmt { inner: StmtInner::Jump(JumpStmt { target }) }
    }

    pub fn as_label(label: BlockLabel) -> (r: Self)
        ensures
            r == (Stmt { inner: StmtInner::Label(LabelStmt { label }) }),
    {
        Stmt { inner: StmtInner::Label(LabelStmt { label }) }
    }

    pub fn as_call(func_name: String, result: Option<Operand>, args: Vec<Operand>) -> (r: Self)
        ensures
            r == (Stmt { inner: StmtInner::Call(CallStmt { func_name, result, args }) }),
    {
        Stmt { inner: StmtInner::Call(CallStmt { func_name, result, args }) }
    }

    pub fn as_return(val: Option<Operand>) -> (r: Self)
        ensures
            r == (Stmt { inner: StmtInner::Return(ReturnStmt { val }) }),
    {
        Stmt { inner: StmtInner::Return(ReturnStmt { val }) }
    }

    pub fn as_phi(dst: Operand, incomings: Vec<(BlockLabel, Operand)>) -> (r: Self)
        ensures
            r == (Stmt { inner: StmtInner::Phi(PhiStmt { dst, incomings }) }),
    {
        Stmt { inner: StmtInner::Phi(PhiStmt { dst, incomings }) }
    }
}

/// How a statement uses one of its operands.
#[derive(Debug, Clone, Copy, PartialEq, Eq, Structural)]
pub enum OperandRole {
    /// The statement writes the operand.
    Def,
    /// The statement reads the operand's value.
    Use,
    /// The statement loads through the operand.
    LoadPtr,
    /// The statement stores through the operand.
    StorePtr,
}

/// The operands of a statement with their roles, in order.
pub open spec fn stmt_operands(s: Stmt) -> Seq<(Operand, OperandRole)> {
    match s.inner {
        StmtInner::Alloca(x) => seq![(x.dst, OperandRole::Def)],
        StmtInner::Load(x) => seq![(x.dst, OperandRole::Def), (x.ptr, OperandRole::LoadPtr)],
        StmtInner::Store(x) => seq![(x.src, OperandRole::Use), (x.ptr, OperandRole::StorePtr)],
        StmtInner::Gep(x) => seq![(x.new_ptr, OperandRole::Def), (x.base_ptr, OperandRole::Use), (x.index, OperandRole::Use)],
        StmtInner::BiOp(x) => seq![(x.left, OperandRole::Use), (x.right, OperandRole::Use), (x.dst, OperandRole::Def)],
        StmtInner::Cmp(x) => seq![(x.left, OperandRole::Use), (x.right, OperandRole::Use), (x.dst, OperandRole::Def)],
        StmtInner::CJump(x) => seq![(x.cond, OperandRole::Use)],
        StmtInner::Jump(_) => Seq::empty(),
        StmtInner::Label(_) => Seq::empty(),
        StmtInner::Call(x) => (match x.result {
            Some(d) => seq![(d, OperandRole::Def)],
            None => Seq::empty(),
        }) + x.args@.map_values(|a: Operand| (a, OperandRole::Use)),
        StmtInner::Return(x) => match x.val {
            Some(v) => seq![(v, OperandRole::Use)],
            None => Seq::empty(),
        },
        StmtInner::Phi(x) => seq![(x.dst, OperandRole::Def)] + x.incomings@.map_values(
            |e: (BlockLabel, Operand)| (e.1, OperandRole::Use),
        ),
    }
}

/// The registers that a statement's operands name (if any), with their roles.
pub open spec fn stmt_roles(s: Stmt) -> Seq<(Option<usize>, OperandRole)> {
    stmt_operands(s).map_values(|p: (Operand, OperandRole)| (p.0.spec_vreg(), p.1))
}

impl Stmt {
    /// The registers that the operands name (if any), with their roles, in order.
    pub fn operand_roles(&self) -> (r: Vec<(Option<usize>, OperandRole)>)
        ensures
            r@ == stmt_roles(*self),
    {
        let mut r: Vec<(Option<usize>, OperandRole)> = Vec::new();
        match &self.inner {
            StmtInner::Alloca(x) => {
                r.push((x.dst.vreg_index(), OperandRole::Def));
            },
            StmtInner::Load(x) => {
                r.push((x.dst.vreg_index(), OperandRole::Def));
                r.push((x.ptr.vreg_index(), OperandRole::LoadPtr));
            },
            StmtInner::Store(x) => {
                r.push((x.src.vreg_index(), OperandRole::Use));
                r.push((x.ptr.vreg_index(), OperandRole::StorePtr));
            },
            StmtInner::Gep(x) => {
                r.push((x.new_ptr.vreg_index(), OperandRole::Def));
                r.push((x.base_ptr.vreg_index(), OperandRole::Use));
                r.push((x.index.vreg_index(), OperandRole::Use));
            },
            StmtInner::BiOp(x) => {
                r.push((x.left.vreg_index(), OperandRole::Use));
                r.push((x.right.vreg_index(), OperandRole::Use));
                r.push((x.dst.vreg_index(), OperandRole::Def));
            },
            StmtInner::Cmp(x) => {
                r.push((x.left.vreg_index(), OperandRole::Use));
                r.push((x.right.vreg_index(), OperandRole::Use));
                r.push((x.dst.vreg_index(), OperandRole::Def));
            },
            StmtInner::CJump(x) => {
                r.push((x.cond.vreg_index(), OperandRole::Use));
            },
            StmtInner::Jump(_) => {},
            StmtInner::Label(_) => {},
            StmtInner::Call(x) => {
                if let Some(d) = &x.result {
                    r.push((d.vreg_index(), OperandRole::Def));
                }
                let ghost head = r@;
                let mut k: usize = 0;
                while k < x.args.len()
                    invariant
                        k <= x.args@.len(),
                        r@ == head + x.args@.take(k as int).map_values(|a: Operand| (a, OperandRole::Use)).map_values(
                            |p: (Operand, OperandRole)| (p.0.spec_vreg(), p.1),
                        ),
                    decreases x.args@.len() - k,
                {
                    r.push((x.args[k].vreg_index(), OperandRole::Use));
                    k += 1;
                    assert(r@ =~= head + x.args@.take(k as int).map_values(|a: Operand| (a, OperandRole::Use)).map_values(
                        |p: (Operand, OperandRole)| (p.0.spec_vreg(), p.1),
                    ));
                }
                assert(x.args@.take(k as int) =~= x.args@);
            },
            StmtInner::Return(x) => {
                if let Some(v) = &x.val {
                    r.push((v.vreg_index(), OperandRole::Use));
                }
            },
            StmtInner::Phi(x) => {
                r.push((x.dst.vreg_index(), OperandRole::Def));
                let ghost head = r@;
                let mut k: usize = 0;
                while k < x.incomings.len()
                    invariant
                        k <= x.incomings@.len(),
                        r@ == head + x.incomings@.take(k as int).map_values(
                            |e: (BlockLabel, Operand)| (e.1, OperandRole::Use),
                        ).map_values(|p: (Operand, OperandRole)| (p.0.spec_vreg(), p.1)),
                    decreases x.incomings@.len() - k,
                {
                    r.push((x.incomings[k].1.vreg_index(), OperandRole::Use));
                    k += 1;
                    assert(r@ =~= head + x.incomings@.take(k as int).map_values(
                        |e: (BlockLabel, Operand)| (e.1, OperandRole::Use),
                    ).map_values(|p: (Operand, OperandRole)| (p.0.spec_vreg(), p.1)));
                }
                assert(x.incomings@.take(k as int) =~= x.incomings@);
            },
        }
        assert(r@ =~= stmt_roles(*self));
        r
    }
}

} // verus!
