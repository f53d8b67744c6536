//! The constraint language that the synthesis core consumes.
//!
//! A [`Module`] arrives already normalised: every top-level constraint is an
//! equality between a leaf and a leaf, a negated leaf, or one operator applied
//! to two leaves. The executable types carry names and byte strings; contracts
//! speak of their models, in which a constant is an integer and a variable is
//! its identifier.

use crate::integer::Integer;
use vstd::prelude::*;

verus! {

/// Identifies a variable for the lifetime of a module.
pub type VariableId = u32;

/// A variable: its identifier and, where the source had one, its name.
#[derive(Debug)]
pub struct Variable {
    pub name: Option<String>,
    pub id: VariableId,
}

impl Variable {
    /// The variable with the given identifier and no name.
    pub fn new(id: VariableId) -> (r: Variable)
        ensures
            r.id == id,
            r.name is None,
    {
        Variable { name: None, id }
    }

    /// A copy of the variable.
    pub fn duplicate(&self) -> (r: Variable)
        ensures
            r == *self,
    {
        let name = match &self.name {
            Some(s) => Some(s.clone()),
            None => None,
        };
        Variable { name, id: self.id }
    }
}

/// The binary operators of the language.
#[derive(Clone, Copy, PartialEq, Eq, Structural, Debug)]
pub enum InfixOp {
    Divide,
    DivideZ,
    Multiply,
    Add,
    Subtract,
    Equal,
    IntDivide,
    Modulo,
    Exponentiate,
}

/// An expression.
#[derive(Debug)]
pub enum Expr {
    Unit,
    Product(Box<TExpr>, Box<TExpr>),
    Infix(InfixOp, Box<TExpr>, Box<TExpr>),
    Negate(Box<TExpr>),
    Constant(Integer),
    Variable(Variable),
}

/// An expression as it stands in a module.
#[derive(Debug)]
pub struct TExpr {
    pub v: Expr,
}

/// What an expression is, with names and representations set aside.
pub enum ExprModel {
    Unit,
    Product(Box<ExprModel>, Box<ExprModel>),
    Infix(InfixOp, Box<ExprModel>, Box<ExprModel>),
    Negate(Box<ExprModel>),
    Constant(int),
    Variable(VariableId),
}

/// The model of an expression.
pub open spec fn expr_model(e: TExpr) -> ExprModel
    decreases e,
{
    match e.v {
        Expr::Unit => ExprModel::Unit,
        Expr::Product(a, b) => ExprModel::Product(
            Box::new(expr_model(*a)),
            Box::new(expr_model(*b)),
        ),
        Expr::Infix(op, a, b) => ExprModel::Infix(
            op,
            Box::new(expr_model(*a)),
            Box::new(expr_model(*b)),
        ),
        Expr::Negate(a) => ExprModel::Negate(Box::new(expr_model(*a))),
        Expr::Constant(c) => ExprModel::Constant(c@),
        Expr::Variable(v) => ExprModel::Variable(v.id),
    }
}

impl View for TExpr {
    type V = ExprModel;

    open spec fn view(&self) -> ExprModel {
        expr_model(*self)
    }
}

impl Expr {
    /// Wraps the expression for use in a module.
    pub fn type_expr(self) -> (r: TExpr)
        ensures
            r.v == self,
    {
        TExpr { v: self }
    }
}

impl TExpr {
    /// The expression that is the constant `c`.
    pub fn constant(c: Integer) -> (r: TExpr)
        ensures
            r@ == ExprModel::Constant(c@),
    {
        TExpr { v: Expr::Constant(c) }
    }

    /// The expression that is the variable `id`.
    pub fn variable(id: VariableId) -> (r: TExpr)
        ensures
            r@ == ExprModel::Variable(id),
    {
        TExpr { v: Expr::Variable(Variable::new(id)) }
    }

    /// The negation of `e`.
    pub fn negate(e: TExpr) -> (r: TExpr)
        ensures
            r@ == ExprModel::Negate(Box::new(e@)),
    {
        TExpr { v: Expr::Negate(Box::new(e)) }
    }

    /// The operator `op` applied to `a` and `b`.
    pub fn infix(op: InfixOp, a: TExpr, b: TExpr) -> (r: TExpr)
        ensures
            r@ == ExprModel::Infix(op, Box::new(a@), Box::new(b@)),
    {
        TExpr { v: Expr::Infix(op, Box::new(a), Box::new(b)) }
    }

    /// A copy of the expression.
    pub fn duplicate(&self) -> (r: TExpr)
        ensures
            r@ == self@,
        decreases self,
    {
        match &self.v {
            Expr::Unit => TExpr { v: Expr::Unit },
            Expr::Product(a, b) => TExpr {
                v: Expr::Product(Box::new(a.duplicate()), Box::new(b.duplicate())),
            },
            Expr::Infix(op, a, b) => TExpr {
                v: Expr::Infix(*op, Box::new(a.duplicate()), Box::new(b.duplicate())),
            },
            Expr::Negate(a) => TExpr { v: Expr::Negate(Box::new(a.duplicate())) },
            Expr::Constant(c) => TExpr { v: Expr::Constant(c.duplicate()) },
            Expr::Variable(v) => TExpr { v: Expr::Variable(v.duplicate()) },
        }
    }
}

/// A pattern on the left of a definition.
#[derive(Debug)]
pub enum Pat {
    Unit,
    Product(Box<TPat>, Box<TPat>),
    Constant(Integer),
    Variable(Variable),
}

/// A pattern as it stands in a module.
#[derive(Debug)]
pub struct TPat {
    pub v: Pat,
}

/// What a pattern is, with names and representations set aside.
pub enum PatModel {
    Unit,
    Product(Box<PatModel>, Box<PatModel>),
    Constant(int),
    Variable(VariableId),
}

/// The model of a pattern.
pub open spec fn pat_model(p: TPat) -> PatModel
    decreases p,
{
    match p.v {
        Pat::Unit => PatModel::Unit,
        Pat::Product(a, b) => PatModel::Product(Box::new(pat_model(*a)), Box::new(pat_model(*b))),
        Pat::Constant(c) => PatModel::Constant(c@),
        Pat::Variable(v) => PatModel::Variable(v.id),
    }
}

impl View for TPat {
    type V = PatModel;

    open spec fn view(&self) -> PatModel {
        pat_model(*self)
    }
}

impl TPat {
    /// The pattern that is the variable `id`.
    pub fn variable(id: VariableId) -> (r: TPat)
        ensures
            r@ == PatModel::Variable(id),
    {
        TPat { v: Pat::Variable(Variable::new(id)) }
    }

    /// A copy of the pattern.
    pub fn duplicate(&self) -> (r: TPat)
        ensures
            r@ == self@,
        decreases self,
    {
        match &self.v {
            Pat::Unit => TPat { v: Pat::Unit },
            Pat::Product(a, b) => TPat {
                v: Pat::Product(Box::new(a.duplicate()), Box::new(b.duplicate())),
            },
            Pat::Constant(c) => TPat { v: Pat::Constant(c.duplicate()) },
            Pat::Variable(v) => TPat { v: Pat::Variable(v.duplicate()) },
        }
    }
}

/// A binding `pattern := expression`.
#[derive(Debug)]
pub struct LetBinding(pub TPat, pub Box<TExpr>);

/// A definition of a module.
#[derive(Debug)]
pub struct Definition(pub LetBinding);

impl View for Definition {
    type V = (PatModel, ExprModel);

    open spec fn view(&self) -> (PatModel, ExprModel) {
        (self.0.0@, self.0.1@)
    }
}

impl Definition {
    /// The definition `pattern := value`.
    pub fn new(pattern: TPat, value: TExpr) -> (r: Definition)
        ensures
            r@ == (pattern@, value@),
    {
        Definition(LetBinding(pattern, Box::new(value)))
    }

    /// A copy of the definition.
    pub fn duplicate(&self) -> (r: Definition)
        ensures
            r@ == self@,
    {
        Definition(LetBinding(self.0.0.duplicate(), Box::new(self.0.1.duplicate())))
    }
}

/// The input of synthesis: public variables, definitions and constraints, each in order.
#[derive(Debug)]
pub struct Module {
    pub pubs: Vec<Variable>,
    pub defs: Vec<Definition>,
    pub exprs: Vec<TExpr>,
}

/// What a module is, with names and representations set aside.
pub struct ModuleModel {
    pub pubs: Seq<VariableId>,
    pub defs: Seq<(PatModel, ExprModel)>,
    pub exprs: Seq<ExprModel>,
}

impl View for Module {
    type V = ModuleModel;

    open spec fn view(&self) -> ModuleModel {
        ModuleModel {
            pubs: Seq::new(self.pubs@.len(), |i: int| self.pubs@[i].id),
            defs: Seq::new(self.defs@.len(), |i: int| self.defs@[i]@),
            exprs: Seq::new(self.exprs@.len(), |i: int| self.exprs@[i]@),
        }
    }
}

impl Module {
    /// A copy of the module.
    pub fn duplicate(&self) -> (r: Module)
        ensures
            r@ == self@,
            r.pubs@ == self.pubs@,
    {
        let mut pubs: Vec<Variable> = Vec::new();
        let mut i: usize = 0;
        while i < self.pubs.len()
            invariant
                i <= self.pubs.len(),
                pubs@ == self.pubs@.take(i as int),
            decreases self.pubs.len() - i,
        {
            pubs.push(self.pubs[i].duplicate());
            assert(self.pubs@.take(i + 1) == self.pubs@.take(i as int).push(self.pubs@[i as int]));
            i += 1;
        }
        assert(self.pubs@.take(i as int) == self.pubs@);
        let mut defs: Vec<Definition> = Vec::new();
        let mut j: usize = 0;
        while j < self.defs.len()
            invariant
                j <= self.defs.len(),
                defs.len() == j,
                forall|n: int| 0 <= n < j ==> defs@[n]@ == self.defs@[n]@,
            decreases self.defs.len() - j,
        {
            defs.push(self.defs[j].duplicate());
            j += 1;
        }
        let mut exprs: Vec<TExpr> = Vec::new();
        let mut k: usize = 0;
        while k < self.exprs.len()
            invariant
                k <= self.exprs.len(),
                exprs.len() == k,
                forall|n: int| 0 <= n < k ==> exprs@[n]@ == self.exprs@[n]@,
            decreases self.exprs.len() - k,
        {
            exprs.push(self.exprs[k].duplicate());
            k += 1;
        }
        let r = Module { pubs, defs, exprs };
        assert(r@.pubs =~= self@.pubs);
        assert(r@.defs =~= self@.defs);
        assert(r@.exprs =~= self@.exprs);
        r
    }
}

} // verus!
