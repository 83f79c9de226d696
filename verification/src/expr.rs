//! The language in which constraints are handed to a constraint solver:
//! boolean and integer expressions over decision variables, and the commands
//! that declare variables and post constraints.
//!
//! Executable values (`BoolExpr`, `IntExpr`, `Command`) are trees that own
//! their parts. Contracts speak of their views (`Formula`, `Term`,
//! `Posting`), which hold sequences and mathematical integers, and of what a
//! formula means under an assignment of the variables.

use vstd::prelude::*;

verus! {

/// A boolean decision variable: the cell `(y, x)` of the boolean grid with the
/// number `grid`.
#[derive(Debug, Clone, Copy, PartialEq, Eq, Structural, Hash)]
pub struct BoolVar {
    pub grid: usize,
    pub y: usize,
    pub x: usize,
}

/// An integer decision variable: the cell `(y, x)` of the integer grid with
/// the number `grid`. A grid is declared as a whole, or cell by cell.
#[derive(Debug, Clone, Copy, PartialEq, Eq, Structural, Hash)]
pub struct IntVar {
    pub grid: usize,
    pub y: usize,
    pub x: usize,
}

/// Whether the closed blocks of a channel must all have the same shape or
/// must all differ in shape.
#[derive(Debug, Clone, Copy, PartialEq, Eq, Structural)]
pub enum ConstraintType {
    AllEqual,
    AllDifferent,
}

/// A grid of boolean expressions, one for each cell of the board.
#[derive(Debug, Clone, Copy, PartialEq, Eq, Structural)]
pub enum GridExpr {
    /// The variables of a boolean grid.
    Bools { grid: usize },
    /// For each cell, whether the variable of an integer grid equals `value`.
    IntEquals { grid: usize, value: i32 },
}

/// A boolean expression.
#[derive(Debug, PartialEq, Eq)]
pub enum BoolExpr {
    Var(BoolVar),
    Not(Box<BoolExpr>),
    And(Vec<BoolExpr>),
    Or(Vec<BoolExpr>),
    Xor(Box<BoolExpr>, Box<BoolExpr>),
    Iff(Box<BoolExpr>, Box<BoolExpr>),
    Imp(Box<BoolExpr>, Box<BoolExpr>),
    Eq(Box<IntExpr>, Box<IntExpr>),
    Ne(Box<IntExpr>, Box<IntExpr>),
    Le(Box<IntExpr>, Box<IntExpr>),
}

/// An integer expression.
#[derive(Debug, PartialEq, Eq)]
pub enum IntExpr {
    Const(i32),
    Var(IntVar),
    /// How many of the expressions are true.
    CountTrue(Vec<BoolExpr>),
    /// How many expressions are true before the first false one.
    ConsecutivePrefixTrue(Vec<BoolExpr>),
    Sum(Box<IntExpr>, Box<IntExpr>),
}

/// One step of a constraint program.
#[derive(Debug, PartialEq, Eq)]
pub enum Command {
    /// Declares the boolean grid `grid`, of the size of the board.
    NewBoolGrid { grid: usize },
    /// Asks for the values of a boolean grid in the answer.
    AnswerKey { grid: usize },
    /// Declares one integer variable, with values `lo..=hi`.
    NewIntVar { var: IntVar, lo: i32, hi: i32 },
    /// Declares one integer variable, with the given values.
    NewIntVarFromDomain { var: IntVar, domain: Vec<i32> },
    /// Declares the integer grid `grid`, of the size of the board, each cell
    /// with values `lo..=hi`.
    NewIntGrid { grid: usize, lo: i32, hi: i32 },
    /// The expression must be true.
    Post(BoolExpr),
    /// The cells whose expression is true must form one 4-connected set.
    Connected(GridExpr),
    /// The graph whose vertices are numbered `0..sizes.len()` is cut into
    /// connected parts along the edges whose cut expression is true; a vertex
    /// with a size expression lies in a part of that many vertices.
    GraphDivision { sizes: Vec<Option<IntExpr>>, edges: Vec<(usize, usize)>, cuts: Vec<BoolExpr> },
    /// The closed blocks of true cells of a boolean grid must meet a shape
    /// constraint.
    Shapes { kind: ConstraintType, grid: usize },
}

/// The view of a boolean expression.
pub ghost enum Formula {
    Var(BoolVar),
    Not(Box<Formula>),
    And(Seq<Formula>),
    Or(Seq<Formula>),
    Xor(Box<Formula>, Box<Formula>),
    Iff(Box<Formula>, Box<Formula>),
    Imp(Box<Formula>, Box<Formula>),
    Eq(Box<Term>, Box<Term>),
    Ne(Box<Term>, Box<Term>),
    Le(Box<Term>, Box<Term>),
}

/// The view of an integer expression.
pub ghost enum Term {
    Const(int),
    Var(IntVar),
    CountTrue(Seq<Formula>),
    ConsecutivePrefixTrue(Seq<Formula>),
    Sum(Box<Term>, Box<Term>),
}

/// The view of a command.
pub ghost enum Posting {
    NewBoolGrid { grid: int },
    AnswerKey { grid: int },
    NewIntVar { var: IntVar, lo: int, hi: int },
    NewIntVarFromDomain { var: IntVar, domain: Seq<int> },
    NewIntGrid { grid: int, lo: int, hi: int },
    Post(Formula),
    Connected(GridExpr),
    GraphDivision { sizes: Seq<Option<Term>>, edges: Seq<(int, int)>, cuts: Seq<Formula> },
    Shapes { kind: ConstraintType, grid: int },
}

/// The formula that a boolean expression stands for.
pub open spec fn formula_of(e: BoolExpr) -> Formula
    decreases e,
{
    match e {
        BoolExpr::Var(v) => Formula::Var(v),
        BoolExpr::Not(a) => Formula::Not(Box::new(formula_of(*a))),
        BoolExpr::And(es) => Formula::And(
            Seq::new(
                es.len() as nat,
                |i: int|
                    if 0 <= i < es.len() {
                        formula_of(es[i])
                    } else {
                        arbitrary()
                    },
            ),
        ),
        BoolExpr::Or(es) => Formula::Or(
            Seq::new(
                es.len() as nat,
                |i: int|
                    if 0 <= i < es.len() {
                        formula_of(es[i])
                    } else {
                        arbitrary()
                    },
            ),
        ),
        BoolExpr::Xor(a, b) => Formula::Xor(Box::new(formula_of(*a)), Box::new(formula_of(*b))),
        BoolExpr::Iff(a, b) => Formula::Iff(Box::new(formula_of(*a)), Box::new(formula_of(*b))),
        BoolExpr::Imp(a, b) => Formula::Imp(Box::new(formula_of(*a)), Box::new(formula_of(*b))),
        BoolExpr::Eq(a, b) => Formula::Eq(Box::new(term_of(*a)), Box::new(term_of(*b))),
        BoolExpr::Ne(a, b) => Formula::Ne(Box::new(term_of(*a)), Box::new(term_of(*b))),
        BoolExpr::Le(a, b) => Formula::Le(Box::new(term_of(*a)), Box::new(term_of(*b))),
    }
}

/// The term that an integer expression stands for.
pub open spec fn term_of(e: IntExpr) -> Term
    decreases e,
{
    match e {
        IntExpr::Const(c) => Term::Const(c as int),
        IntExpr::Var(v) => Term::Var(v),
        IntExpr::CountTrue(es) => Term::CountTrue(
            Seq::new(
                es.len() as nat,
                |i: int|
                    if 0 <= i < es.len() {
                        formula_of(es[i])
                    } else {
                        arbitrary()
                    },
            ),
        ),
        IntExpr::ConsecutivePrefixTrue(es) => Term::ConsecutivePrefixTrue(
            Seq::new(
                es.len() as nat,
                |i: int|
                    if 0 <= i < es.len() {
                        formula_of(es[i])
                    } else {
                        arbitrary()
                    },
            ),
        ),
        IntExpr::Sum(a, b) => Term::Sum(Box::new(term_of(*a)), Box::new(term_of(*b))),
    }
}

impl View for BoolExpr {
    type V = Formula;

    open spec fn view(&self) -> Formula {
        formula_of(*self)
    }
}

impl View for IntExpr {
    type V = Term;

    open spec fn view(&self) -> Term {
        term_of(*self)
    }
}

/// The formulas of a list of boolean expressions.
pub open spec fn formulas_of(es: Seq<BoolExpr>) -> Seq<Formula> {
    Seq::new(es.len(), |i: int| es[i]@)
}

/// The terms of a list of optional integer expressions.
pub open spec fn opt_terms_of(es: Seq<Option<IntExpr>>) -> Seq<Option<Term>> {
    Seq::new(
        es.len(),
        |i: int|
            match es[i] {
                Some(e) => Some(e@),
                None => None,
            },
    )
}

/// A sequence of machine integers as mathematical integers.
pub open spec fn ints_of(s: Seq<i32>) -> Seq<int> {
    Seq::new(s.len(), |i: int| s[i] as int)
}

/// A sequence of pairs of indices as pairs of mathematical integers.
pub open spec fn pairs_of(s: Seq<(usize, usize)>) -> Seq<(int, int)> {
    Seq::new(s.len(), |i: int| (s[i].0 as int, s[i].1 as int))
}

impl View for Command {
    type V = Posting;

    open spec fn view(&self) -> Posting {
        match *self {
            Command::NewBoolGrid { grid } => Posting::NewBoolGrid { grid: grid as int },
            Command::AnswerKey { grid } => Posting::AnswerKey { grid: grid as int },
            Command::NewIntVar { var, lo, hi } => Posting::NewIntVar {
                var,
                lo: lo as int,
                hi: hi as int,
            },
            Command::NewIntVarFromDomain { var, domain } => Posting::NewIntVarFromDomain {
                var,
                domain: ints_of(domain@),
            },
            Command::NewIntGrid { grid, lo, hi } => Posting::NewIntGrid {
                grid: grid as int,
                lo: lo as int,
                hi: hi as int,
            },
            Command::Post(e) => Posting::Post(e@),
            Command::Connected(g) => Posting::Connected(g),
            Command::GraphDivision { sizes, edges, cuts } => Posting::GraphDivision {
                sizes: opt_terms_of(sizes@),
                edges: pairs_of(edges@),
                cuts: formulas_of(cuts@),
            },
            Command::Shapes { kind, grid } => Posting::Shapes { kind, grid: grid as int },
        }
    }
}

/// The postings of a list of commands.
pub open spec fn postings_of(cs: Seq<Command>) -> Seq<Posting> {
    Seq::new(cs.len(), |i: int| cs[i]@)
}

/// The formula `!a`.
pub open spec fn f_not(a: Formula) -> Formula {
    Formula::Not(Box::new(a))
}

/// The formula `a ^ b`.
pub open spec fn f_xor(a: Formula, b: Formula) -> Formula {
    Formula::Xor(Box::new(a), Box::new(b))
}

/// The formula `a <-> b`.
pub open spec fn f_iff(a: Formula, b: Formula) -> Formula {
    Formula::Iff(Box::new(a), Box::new(b))
}

/// The formula `a -> b`.
pub open spec fn f_imp(a: Formula, b: Formula) -> Formula {
    Formula::Imp(Box::new(a), Box::new(b))
}

/// The formula `a == b` over terms.
pub open spec fn f_eq(a: Term, b: Term) -> Formula {
    Formula::Eq(Box::new(a), Box::new(b))
}

/// The formula `a != b` over terms.
pub open spec fn f_ne(a: Term, b: Term) -> Formula {
    Formula::Ne(Box::new(a), Box::new(b))
}

/// The formula `a <= b` over terms.
pub open spec fn f_le(a: Term, b: Term) -> Formula {
    Formula::Le(Box::new(a), Box::new(b))
}

/// The term `a + b`.
pub open spec fn t_sum(a: Term, b: Term) -> Term {
    Term::Sum(Box::new(a), Box::new(b))
}

/// The formula that is the variable `(y, x)` of the boolean grid `grid`.
pub open spec fn f_var(grid: int, y: int, x: int) -> Formula {
    Formula::Var(BoolVar { grid: grid as usize, y: y as usize, x: x as usize })
}

/// The integer variable that is the cell `(y, x)` of the integer grid `grid`.
pub open spec fn int_var(grid: int, y: int, x: int) -> IntVar {
    IntVar { grid: grid as usize, y: y as usize, x: x as usize }
}

/// The term that is the cell `(y, x)` of the integer grid `grid`.
pub open spec fn t_cell(grid: int, y: int, x: int) -> Term {
    Term::Var(int_var(grid, y, x))
}

/// The term that is the constant `c`.
pub open spec fn t_const(c: int) -> Term {
    Term::Const(c)
}

/// A value for every decision variable.
pub ghost struct Assignment {
    pub bools: spec_fn(BoolVar) -> bool,
    pub ints: spec_fn(IntVar) -> int,
}

/// Whether the first `n` formulas of a list are all true under the
/// assignment.
pub open spec fn all_hold(fs: Seq<Formula>, a: Assignment, n: int) -> bool
    decreases fs, n,
{
    if n <= 0 || n > fs.len() {
        true
    } else {
        all_hold(fs, a, n - 1) && fs[n - 1].holds(a)
    }
}

/// Whether one of the first `n` formulas of a list is true under the
/// assignment.
pub open spec fn any_holds(fs: Seq<Formula>, a: Assignment, n: int) -> bool
    decreases fs, n,
{
    if n <= 0 || n > fs.len() {
        false
    } else {
        any_holds(fs, a, n - 1) || fs[n - 1].holds(a)
    }
}

/// How many of the first `n` formulas of a list are true under the
/// assignment.
pub open spec fn count_holding(fs: Seq<Formula>, a: Assignment, n: int) -> int
    decreases fs, n,
{
    if n <= 0 || n > fs.len() {
        0
    } else {
        count_holding(fs, a, n - 1) + if fs[n - 1].holds(a) {
            1int
        } else {
            0int
        }
    }
}

/// How many formulas of a list are true under the assignment from the
/// place `i` on, before the first that is false.
pub open spec fn run_holding(fs: Seq<Formula>, a: Assignment, i: int) -> int
    decreases fs, fs.len() - i,
{
    if i < 0 || i >= fs.len() {
        0
    } else if fs[i].holds(a) {
        1 + run_holding(fs, a, i + 1)
    } else {
        0
    }
}

impl Formula {
    /// Whether the formula is true under the assignment.
    pub open spec fn holds(self, a: Assignment) -> bool
        decreases self, 0int,
    {
        match self {
            Formula::Var(v) => (a.bools)(v),
            Formula::Not(f) => !f.holds(a),
            Formula::And(fs) => all_hold(fs, a, fs.len() as int),
            Formula::Or(fs) => any_holds(fs, a, fs.len() as int),
            Formula::Xor(f, g) => f.holds(a) != g.holds(a),
            Formula::Iff(f, g) => f.holds(a) == g.holds(a),
            Formula::Imp(f, g) => f.holds(a) ==> g.holds(a),
            Formula::Eq(s, t) => s.value(a) == t.value(a),
            Formula::Ne(s, t) => s.value(a) != t.value(a),
            Formula::Le(s, t) => s.value(a) <= t.value(a),
        }
    }
}

impl Term {
    /// The value of the term under the assignment.
    pub open spec fn value(self, a: Assignment) -> int
        decreases self, 0int,
    {
        match self {
            Term::Const(c) => c,
            Term::Var(v) => (a.ints)(v),
            Term::CountTrue(fs) => count_holding(fs, a, fs.len() as int),
            Term::ConsecutivePrefixTrue(fs) => run_holding(fs, a, 0),
            Term::Sum(s, t) => s.value(a) + t.value(a),
        }
    }
}

/// A conjunction is true if and only if each of its formulas is, and a
/// disjunction if and only if one of them is.
pub proof fn lemma_all_any(fs: Seq<Formula>, a: Assignment, n: int)
    requires
        0 <= n <= fs.len(),
    ensures
        all_hold(fs, a, n) <==> forall|i: int| 0 <= i < n ==> (#[trigger] fs[i]).holds(a),
        any_holds(fs, a, n) <==> exists|i: int| 0 <= i < n && (#[trigger] fs[i]).holds(a),
        0 <= count_holding(fs, a, n) <= n,
    decreases n,
{
    if n > 0 {
        lemma_all_any(fs, a, n - 1);
        if any_holds(fs, a, n) {
            if fs[n - 1].holds(a) {
            } else {
                let i = choose|i: int| 0 <= i < n - 1 && (#[trigger] fs[i]).holds(a);
                assert(0 <= i < n && fs[i].holds(a));
            }
        }
    }
}

/// Whether every posted formula of a program is true under the assignment.
/// The other postings (declarations, connectivity, graph division, shapes)
/// are not formulas and are left to the solver.
pub open spec fn satisfies(a: Assignment, program: Seq<Posting>) -> bool {
    forall|i: int|
        0 <= i < program.len() ==> match #[trigger] program[i] {
            Posting::Post(f) => f.holds(a),
            _ => true,
        }
}

impl BoolExpr {
    /// The variable `(y, x)` of the boolean grid `grid`.
    pub fn var(grid: usize, y: usize, x: usize) -> (r: BoolExpr)
        ensures
            r@ == f_var(grid as int, y as int, x as int),
    {
        BoolExpr::Var(BoolVar { grid, y, x })
    }

    /// `!a`.
    pub fn not(a: BoolExpr) -> (r: BoolExpr)
        ensures
            r@ == f_not(a@),
    {
        BoolExpr::Not(Box::new(a))
    }

    /// The conjunction of the expressions in `es`.
    pub fn and(es: Vec<BoolExpr>) -> (r: BoolExpr)
        ensures
            r@ == Formula::And(formulas_of(es@)),
    {
        proof {
            assert(formula_of(BoolExpr::And(es))->And_0 =~= formulas_of(es@));
        }
        BoolExpr::And(es)
    }

    /// The disjunction of the expressions in `es`.
    pub fn or(es: Vec<BoolExpr>) -> (r: BoolExpr)
        ensures
            r@ == Formula::Or(formulas_of(es@)),
    {
        proof {
            assert(formula_of(BoolExpr::Or(es))->Or_0 =~= formulas_of(es@));
        }
        BoolExpr::Or(es)
    }

    /// `a & b`.
    pub fn and2(a: BoolExpr, b: BoolExpr) -> (r: BoolExpr)
        ensures
            r@ == Formula::And(seq![a@, b@]),
    {
        let mut es: Vec<BoolExpr> = Vec::new();
        es.push(a);
        es.push(b);
        proof {
            assert(formulas_of(es@) =~= seq![a@, b@]);
        }
        BoolExpr::and(es)
    }

    /// `a | b`.
    pub fn or2(a: BoolExpr, b: BoolExpr) -> (r: BoolExpr)
        ensures
            r@ == Formula::Or(seq![a@, b@]),
    {
        let mut es: Vec<BoolExpr> = Vec::new();
        es.push(a);
        es.push(b);
        proof {
            assert(formulas_of(es@) =~= seq![a@, b@]);
        }
        BoolExpr::or(es)
    }

    /// `a ^ b`.
    pub fn xor(a: BoolExpr, b: BoolExpr) -> (r: BoolExpr)
        ensures
            r@ == f_xor(a@, b@),
    {
        BoolExpr::Xor(Box::new(a), Box::new(b))
    }

    /// `a <-> b`.
    pub fn iff(a: BoolExpr, b: BoolExpr) -> (r: BoolExpr)
        ensures
            r@ == f_iff(a@, b@),
    {
        BoolExpr::Iff(Box::new(a), Box::new(b))
    }

    /// `a -> b`.
    pub fn imp(a: BoolExpr, b: BoolExpr) -> (r: BoolExpr)
        ensures
            r@ == f_imp(a@, b@),
    {
        BoolExpr::Imp(Box::new(a), Box::new(b))
    }

    /// `a == b` over integer expressions.
    pub fn eq(a: IntExpr, b: IntExpr) -> (r: BoolExpr)
        ensures
            r@ == f_eq(a@, b@),
    {
        BoolExpr::Eq(Box::new(a), Box::new(b))
    }

    /// `a != b` over integer expressions.
    pub fn ne(a: IntExpr, b: IntExpr) -> (r: BoolExpr)
        ensures
            r@ == f_ne(a@, b@),
    {
        BoolExpr::Ne(Box::new(a), Box::new(b))
    }

    /// `a <= b` over integer expressions.
    pub fn le(a: IntExpr, b: IntExpr) -> (r: BoolExpr)
        ensures
            r@ == f_le(a@, b@),
    {
        BoolExpr::Le(Box::new(a), Box::new(b))
    }
}

impl IntExpr {
    /// The constant `c`.
    pub fn constant(c: i32) -> (r: IntExpr)
        ensures
            r@ == Term::Const(c as int),
    {
        IntExpr::Const(c)
    }

    /// The cell `(y, x)` of the integer grid `grid`.
    pub fn cell(grid: usize, y: usize, x: usize) -> (r: IntExpr)
        ensures
            r@ == t_cell(grid as int, y as int, x as int),
    {
        IntExpr::Var(IntVar { grid, y, x })
    }

    /// The number of true expressions in `es`.
    pub fn count_true(es: Vec<BoolExpr>) -> (r: IntExpr)
        ensures
            r@ == Term::CountTrue(formulas_of(es@)),
    {
        proof {
            assert(term_of(IntExpr::CountTrue(es))->CountTrue_0 =~= formulas_of(es@));
        }
        IntExpr::CountTrue(es)
    }

    /// The number of true expressions in `es` before the first false one.
    pub fn consecutive_prefix_true(es: Vec<BoolExpr>) -> (r: IntExpr)
        ensures
            r@ == Term::ConsecutivePrefixTrue(formulas_of(es@)),
    {
        proof {
            assert(term_of(IntExpr::ConsecutivePrefixTrue(es))->ConsecutivePrefixTrue_0
                =~= formulas_of(es@));
        }
        IntExpr::ConsecutivePrefixTrue(es)
    }

    /// `a + b`.
    pub fn sum(a: IntExpr, b: IntExpr) -> (r: IntExpr)
        ensures
            r@ == t_sum(a@, b@),
    {
        IntExpr::Sum(Box::new(a), Box::new(b))
    }
}

/// Appends an expression to a list.
pub fn push_expr(es: &mut Vec<BoolExpr>, e: BoolExpr)
    ensures
        formulas_of(final(es)@) == formulas_of(old(es)@).push(e@),
{
    es.push(e);
    proof {
        assert(formulas_of(es@) =~= formulas_of(old(es)@).push(e@));
    }
}

/// Appends a command to a program.
pub fn push_command(cs: &mut Vec<Command>, c: Command)
    ensures
        postings_of(final(cs)@) == postings_of(old(cs)@).push(c@),
{
    cs.push(c);
    proof {
        assert(postings_of(cs@) =~= postings_of(old(cs)@).push(c@));
    }
}

/// A copy of a list of boolean expressions.
pub fn duplicate_all(es: &Vec<BoolExpr>) -> (r: Vec<BoolExpr>)
    ensures
        formulas_of(r@) == formulas_of(es@),
    decreases es,
{
    let mut r: Vec<BoolExpr> = Vec::new();
    let mut i: usize = 0;
    while i < es.len()
        invariant
            i <= es@.len(),
            r@.len() == i,
            forall|k: int| 0 <= k < i ==> (#[trigger] r@[k])@ == es@[k]@,
        decreases es@.len() - i,
    {
        let c = es[i].duplicate();
        r.push(c);
        i += 1;
    }
    proof {
        assert(formulas_of(r@) =~= formulas_of(es@));
    }
    r
}

impl BoolExpr {
    /// A copy of the expression.
    pub fn duplicate(&self) -> (r: BoolExpr)
        ensures
            r@ == self@,
        decreases self,
    {
        match self {
            BoolExpr::Var(v) => BoolExpr::Var(*v),
            BoolExpr::Not(a) => BoolExpr::not(a.duplicate()),
            BoolExpr::And(es) => {
                proof {
                    assert(formula_of(*self)->And_0 =~= formulas_of(es@));
                }
                BoolExpr::and(duplicate_all(es))
            },
            BoolExpr::Or(es) => {
                proof {
                    assert(formula_of(*self)->Or_0 =~= formulas_of(es@));
                }
                BoolExpr::or(duplicate_all(es))
            },
            BoolExpr::Xor(a, b) => BoolExpr::xor(a.duplicate(), b.duplicate()),
            BoolExpr::Iff(a, b) => BoolExpr::iff(a.duplicate(), b.duplicate()),
            BoolExpr::Imp(a, b) => BoolExpr::imp(a.duplicate(), b.duplicate()),
            BoolExpr::Eq(a, b) => BoolExpr::eq(a.duplicate(), b.duplicate()),
            BoolExpr::Ne(a, b) => BoolExpr::ne(a.duplicate(), b.duplicate()),
            BoolExpr::Le(a, b) => BoolExpr::le(a.duplicate(), b.duplicate()),
        }
    }
}

impl IntExpr {
    /// A copy of the expression.
    pub fn duplicate(&self) -> (r: IntExpr)
        ensures
            r@ == self@,
        decreases self,
    {
        match self {
            IntExpr::Const(c) => IntExpr::Const(*c),
            IntExpr::Var(v) => IntExpr::Var(*v),
            IntExpr::CountTrue(es) => {
                proof {
                    assert(term_of(*self)->CountTrue_0 =~= formulas_of(es@));
                }
                IntExpr::count_true(duplicate_all(es))
            },
            IntExpr::ConsecutivePrefixTrue(es) => {
                proof {
                    assert(term_of(*self)->ConsecutivePrefixTrue_0 =~= formulas_of(es@));
                }
                IntExpr::consecutive_prefix_true(duplicate_all(es))
            },
            IntExpr::Sum(a, b) => IntExpr::sum(a.duplicate(), b.duplicate()),
        }
    }
}

} // verus!
