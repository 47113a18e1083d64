use vstd::prelude::*;

verus! {

/// An expression of a function body, as far as the fallthrough rewriter
/// reads it. `L` is the caller's handle on a piece of syntax that the
/// rewriter carries through without looking inside (an index into the
/// caller's own tree, for instance).
#[derive(Debug, PartialEq, Eq)]
pub enum Expr<L> {
    /// An explicit early exit (`break`, with or without label or value);
    /// the handle is the expression as written.
    Break(L),
    /// The no-op value `()`.
    Unit,
    /// A block expression.
    Block(Block<L>),
    /// A multi-arm conditional (`match`).
    Match(Match<L>),
    /// Any other expression.
    Other(L),
}

/// A block: its statements, and the handle on what surrounds them in the
/// source (attributes, label, braces). A block made by the rewriter has none.
#[derive(Debug, PartialEq, Eq)]
pub struct Block<L> {
    pub frame: Option<L>,
    pub stmts: Vec<Stmt<L>>,
}

/// A statement.
#[derive(Debug, PartialEq, Eq)]
pub enum Stmt<L> {
    /// A `let` binding or an item, carried through as it is.
    Decl(L),
    /// An expression without a trailing semicolon: its value is kept.
    Expr(Expr<L>),
    /// An expression followed by a semicolon: its value is discarded.
    Semi(Expr<L>),
}

/// One arm of a `match`: its pattern (with guard and attributes, never
/// examined) and its body.
#[derive(Debug, PartialEq, Eq)]
pub struct Arm<L> {
    pub pat: L,
    pub body: Expr<L>,
}

/// A `match`: the handle on its scrutinee and surroundings, and its arms in
/// source order.
#[derive(Debug, PartialEq, Eq)]
pub struct Match<L> {
    pub head: L,
    pub arms: Vec<Arm<L>>,
}


/// The mathematical value of an [`Expr`]: the same tree, with sequences in
/// place of vectors.
pub enum SpecExpr<L> {
    Break(L),
    Unit,
    Block(Option<L>, Seq<SpecStmt<L>>),
    Match(L, Seq<SpecArm<L>>),
    Other(L),
}

/// The mathematical value of a [`Stmt`].
pub enum SpecStmt<L> {
    Decl(L),
    Expr(SpecExpr<L>),
    Semi(SpecExpr<L>),
}

/// The mathematical value of an [`Arm`].
pub struct SpecArm<L> {
    pub pat: L,
    pub body: SpecExpr<L>,
}

/// The value of an expression.
pub open spec fn expr_view<L>(e: Expr<L>) -> SpecExpr<L>
    decreases e,
{
    match e {
        Expr::Break(l) => SpecExpr::Break(l),
        Expr::Unit => SpecExpr::Unit,
        Expr::Block(b) => SpecExpr::Block(b.frame, stmts_view(b.stmts@)),
        Expr::Match(m) => SpecExpr::Match(m.head, arms_view(m.arms@)),
        Expr::Other(l) => SpecExpr::Other(l),
    }
}

/// The value of a statement.
pub open spec fn stmt_view<L>(s: Stmt<L>) -> SpecStmt<L>
    decreases s,
{
    match s {
        Stmt::Decl(l) => SpecStmt::Decl(l),
        Stmt::Expr(e) => SpecStmt::Expr(expr_view(e)),
        Stmt::Semi(e) => SpecStmt::Semi(expr_view(e)),
    }
}

/// The values of a sequence of statements.
pub open spec fn stmts_view<L>(s: Seq<Stmt<L>>) -> Seq<SpecStmt<L>>
    decreases s,
{
    if s.len() == 0 {
        Seq::empty()
    } else {
        stmts_view(s.subrange(0, s.len() - 1)).push(stmt_view(s[s.len() - 1]))
    }
}

/// The values of a sequence of arms.
pub open spec fn arms_view<L>(s: Seq<Arm<L>>) -> Seq<SpecArm<L>>
    decreases s,
{
    if s.len() == 0 {
        Seq::empty()
    } else {
        let a = s[s.len() - 1];
        arms_view(s.subrange(0, s.len() - 1)).push(SpecArm { pat: a.pat, body: expr_view(a.body) })
    }
}

/// A sequence of statements has a value for each statement.
pub proof fn lemma_stmts_view<L>(s: Seq<Stmt<L>>)
    ensures
        stmts_view(s).len() == s.len(),
        forall|i: int| 0 <= i < s.len() ==> #[trigger] stmts_view(s)[i] == stmt_view(s[i]),
    decreases s.len(),
{
    if s.len() > 0 {
        lemma_stmts_view(s.subrange(0, s.len() - 1));
    }
}

/// A sequence of arms has a value for each arm.
pub proof fn lemma_arms_view<L>(s: Seq<Arm<L>>)
    ensures
        arms_view(s).len() == s.len(),
        forall|i: int| 0 <= i < s.len() ==> #[trigger] arms_view(s)[i] == s[i]@,
    decreases s.len(),
{
    if s.len() > 0 {
        lemma_arms_view(s.subrange(0, s.len() - 1));
    }
}

impl<L> View for Expr<L> {
    type V = SpecExpr<L>;

    open spec fn view(&self) -> SpecExpr<L> {
        expr_view(*self)
    }
}

impl<L> View for Stmt<L> {
    type V = SpecStmt<L>;

    open spec fn view(&self) -> SpecStmt<L> {
        stmt_view(*self)
    }
}

impl<L> View for Arm<L> {
    type V = SpecArm<L>;

    open spec fn view(&self) -> SpecArm<L> {
        SpecArm { pat: self.pat, body: expr_view(self.body) }
    }
}

impl<L: Copy> Expr<L> {
    /// A deep copy, equal to the original.
    pub fn duplicate(&self) -> (r: Self)
        ensures
            r@ == self@,
        decreases self,
    {
        match self {
            Expr::Break(l) => Expr::Break(*l),
            Expr::Unit => Expr::Unit,
            Expr::Block(b) => Expr::Block(b.duplicate()),
            Expr::Match(m) => Expr::Match(m.duplicate()),
            Expr::Other(l) => Expr::Other(*l),
        }
    }
}

impl<L: Copy> Stmt<L> {
    /// A deep copy, equal to the original.
    pub fn duplicate(&self) -> (r: Self)
        ensures
            r@ == self@,
        decreases self,
    {
        match self {
            Stmt::Decl(l) => Stmt::Decl(*l),
            Stmt::Expr(e) => Stmt::Expr(e.duplicate()),
            Stmt::Semi(e) => Stmt::Semi(e.duplicate()),
        }
    }
}

impl<L: Copy> Block<L> {
    /// A deep copy, equal to the original.
    pub fn duplicate(&self) -> (r: Self)
        ensures
            r.frame == self.frame,
            stmts_view(r.stmts@) == stmts_view(self.stmts@),
        decreases self,
    {
        let mut stmts: Vec<Stmt<L>> = Vec::new();
        let mut i: usize = 0;
        while i < self.stmts.len()
            invariant
                i <= self.stmts@.len(),
                stmts_view(stmts@) == stmts_view(self.stmts@.subrange(0, i as int)),
            decreases self.stmts@.len() - i,
        {
            assert(decreases_to!(self => self.stmts@[i as int]));
            let ghost before = stmts@;
            stmts.push(self.stmts[i].duplicate());
            assert(stmts@.subrange(0, stmts@.len() - 1) =~= before);
            assert(self.stmts@.subrange(0, i + 1).subrange(0, i as int) =~= self.stmts@.subrange(
                0,
                i as int,
            ));
            i = i + 1;
        }
        assert(self.stmts@.subrange(0, i as int) =~= self.stmts@);
        Block { frame: self.frame, stmts }
    }
}

impl<L: Copy> Arm<L> {
    /// A deep copy, equal to the original.
    pub fn duplicate(&self) -> (r: Self)
        ensures
            r@ == self@,
        decreases self,
    {
        Arm { pat: self.pat, body: self.body.duplicate() }
    }
}

impl<L: Copy> Match<L> {
    /// A deep copy, equal to the original.
    pub fn duplicate(&self) -> (r: Self)
        ensures
            r.head == self.head,
            arms_view(r.arms@) == arms_view(self.arms@),
        decreases self,
    {
        let mut arms: Vec<Arm<L>> = Vec::new();
        let mut i: usize = 0;
        while i < self.arms.len()
            invariant
                i <= self.arms@.len(),
                arms_view(arms@) == arms_view(self.arms@.subrange(0, i as int)),
            decreases self.arms@.len() - i,
        {
            assert(decreases_to!(self => self.arms@[i as int]));
            let ghost before = arms@;
            arms.push(self.arms[i].duplicate());
            assert(arms@.subrange(0, arms@.len() - 1) =~= before);
            assert(self.arms@.subrange(0, i + 1).subrange(0, i as int) =~= self.arms@.subrange(
                0,
                i as int,
            ));
            i = i + 1;
        }
        assert(self.arms@.subrange(0, i as int) =~= self.arms@);
        Match { head: self.head, arms }
    }
}

} // verus!
