use vstd::prelude::*;
use crate::syntax::{
    Arm, Block, Expr, Match, SpecArm, SpecExpr, SpecStmt, Stmt, arms_view, lemma_arms_view,
    lemma_stmts_view, stmts_view,
};

verus! {

/// Whether a statement is an explicit early exit, with or without semicolon.
pub open spec fn is_break_stmt<L>(s: SpecStmt<L>) -> bool {
    match s {
        SpecStmt::Expr(SpecExpr::Break(_)) => true,
        SpecStmt::Semi(SpecExpr::Break(_)) => true,
        _ => false,
    }
}

/// Whether an arm body stops the fallthrough: it is a bare `break`, or a
/// block whose last statement is one.
pub open spec fn ends_in_break<L>(e: SpecExpr<L>) -> bool {
    match e {
        SpecExpr::Break(_) => true,
        SpecExpr::Block(_, stmts) => stmts.len() > 0 && is_break_stmt(stmts.last()),
        _ => false,
    }
}

/// The statement with its value kept: a discarded expression becomes the
/// value of its block.
pub open spec fn keep_value<L>(s: SpecStmt<L>) -> SpecStmt<L> {
    match s {
        SpecStmt::Semi(e) => SpecStmt::Expr(e),
        _ => s,
    }
}

/// An arm body with its trailing `break` taken out. A bare `break` becomes
/// `()`; in a block the `break` statement goes and the statement before it,
/// if any, yields the block's value. Any other body is unchanged.
pub open spec fn without_break<L>(e: SpecExpr<L>) -> SpecExpr<L> {
    match e {
        SpecExpr::Break(_) => SpecExpr::Unit,
        SpecExpr::Block(frame, stmts) => {
            if stmts.len() > 0 && is_break_stmt(stmts.last()) {
                let rest = stmts.drop_last();
                if rest.len() == 0 {
                    SpecExpr::Block(frame, rest)
                } else {
                    SpecExpr::Block(frame, rest.update(rest.len() - 1, keep_value(rest.last())))
                }
            } else {
                e
            }
        },
        _ => e,
    }
}

/// The bodies that entering arm `i` runs, in order: its own and those of the
/// arms below it, up to and including the first that ends in `break` (with
/// that `break` taken out), or up to the last arm.
pub open spec fn chain<L>(bodies: Seq<SpecExpr<L>>, i: int) -> Seq<SpecExpr<L>>
    decreases bodies.len() - i,
{
    if i < 0 || i >= bodies.len() {
        Seq::empty()
    } else if ends_in_break(bodies[i]) {
        seq![without_break(bodies[i])]
    } else {
        seq![bodies[i]] + chain(bodies, i + 1)
    }
}

/// A block that runs the expressions in order, discards the value of each
/// but the last, and yields the value of the last.
pub open spec fn sequenced<L>(es: Seq<SpecExpr<L>>) -> SpecExpr<L> {
    SpecExpr::Block(
        None,
        Seq::new(
            es.len(),
            |j: int|
                if j == es.len() - 1 {
                    SpecStmt::Expr(es[j])
                } else {
                    SpecStmt::Semi(es[j])
                },
        ),
    )
}

/// The bodies of the arms, in order.
pub open spec fn bodies<L>(arms: Seq<SpecArm<L>>) -> Seq<SpecExpr<L>> {
    arms.map_values(|a: SpecArm<L>| a.body)
}

/// The arms with fallthrough: each keeps its pattern, and its body runs the
/// chain that starts at it.
pub open spec fn fallthrough_arms<L>(arms: Seq<SpecArm<L>>) -> Seq<SpecArm<L>> {
    Seq::new(
        arms.len(),
        |i: int| SpecArm { pat: arms[i].pat, body: sequenced(chain(bodies(arms), i)) },
    )
}

/// A `match` with fallthrough arms; any other expression is unchanged.
pub open spec fn fallthrough<L>(e: SpecExpr<L>) -> SpecExpr<L> {
    match e {
        SpecExpr::Match(head, arms) => SpecExpr::Match(head, fallthrough_arms(arms)),
        _ => e,
    }
}

/// A statement whose expression is a `match` gets fallthrough arms; any
/// other statement is unchanged.
pub open spec fn fallthrough_stmt<L>(s: SpecStmt<L>) -> SpecStmt<L> {
    match s {
        SpecStmt::Decl(_) => s,
        SpecStmt::Expr(e) => SpecStmt::Expr(fallthrough(e)),
        SpecStmt::Semi(e) => SpecStmt::Semi(fallthrough(e)),
    }
}

/// The patterns of a `match`, in order; none for any other expression.
pub open spec fn patterns<L>(e: SpecExpr<L>) -> Seq<L> {
    match e {
        SpecExpr::Match(_, arms) => arms.map_values(|a: SpecArm<L>| a.pat),
        _ => Seq::empty(),
    }
}

/// How an arm body ends.
#[derive(Debug, Clone, Copy, PartialEq, Eq)]
pub enum ArmEnd {
    /// In an explicit `break`: the fallthrough stops after this arm.
    Break,
    /// Without one: the arm falls through to the arm below.
    FallThru,
}

/// Whether the statement is an explicit early exit.
pub fn is_break<L>(s: &Stmt<L>) -> (r: bool)
    ensures
        r == is_break_stmt(s@),
{
    match s {
        Stmt::Expr(Expr::Break(_)) => true,
        Stmt::Semi(Expr::Break(_)) => true,
        _ => false,
    }
}

/// Splits an arm body into its body without a trailing `break`, and how it
/// ended.
pub fn parse_arm<L>(expr: Expr<L>) -> (r: (Expr<L>, ArmEnd))
    ensures
        r.0@ == without_break(expr@),
        (r.1 is Break) == ends_in_break(expr@),
{
    match expr {
        Expr::Break(_) => (Expr::Unit, ArmEnd::Break),
        Expr::Block(block) => {
            let Block { frame, mut stmts } = block;
            let ghost old_stmts = stmts@;
            proof {
                lemma_stmts_view(old_stmts);
            }
            let n: usize = stmts.len();
            if n > 0 && is_break(&stmts[n - 1]) {
                stmts.pop();
                match stmts.pop() {
                    Some(Stmt::Semi(e)) => stmts.push(Stmt::Expr(e)),
                    Some(other) => stmts.push(other),
                    None => {},
                }
                proof {
                    lemma_stmts_view(stmts@);
                    let rest = stmts_view(old_stmts).drop_last();
                    if rest.len() == 0 {
                        assert(stmts_view(stmts@) =~= rest);
                    } else {
                        assert(stmts_view(stmts@) =~= rest.update(
                            rest.len() - 1,
                            keep_value(rest.last()),
                        ));
                    }
                }
                (Expr::Block(Block { frame, stmts }), ArmEnd::Break)
            } else {
                (Expr::Block(Block { frame, stmts }), ArmEnd::FallThru)
            }
        },
        other => (other, ArmEnd::FallThru),
    }
}

/// The accumulator of a bottom-to-top scan over the arms of one `match`:
/// the bodies, without their `break`, of the arms scanned since the last
/// arm that ended in `break` (that arm included), bottom arm first.
pub struct FallThru<L> {
    pub arm_exprs: Vec<Expr<L>>,
}

impl<L: Copy> FallThru<L> {
    /// The bodies held, bottom arm first.
    pub open spec fn pending(&self) -> Seq<SpecExpr<L>> {
        self.arm_exprs@.map_values(|e: Expr<L>| e@)
    }

    /// An empty accumulator, for the bottom arm of a `match`.
    pub fn new() -> (r: Self)
        ensures
            r.pending() == Seq::<SpecExpr<L>>::empty(),
    {
        let r = FallThru { arm_exprs: Vec::new() };
        assert(r.pending() =~= Seq::<SpecExpr<L>>::empty());
        r
    }

    /// Takes the next arm up: a `break` at its end empties the accumulator
    /// first; its body without the `break` is added. The arm comes back with
    /// its pattern and a body that runs, in source order, every body held.
    pub fn fold_arm(&mut self, arm: Arm<L>) -> (r: Arm<L>)
        ensures
            final(self).pending() == (if ends_in_break(arm.body@) {
                Seq::<SpecExpr<L>>::empty()
            } else {
                old(self).pending()
            }).push(without_break(arm.body@)),
            r.pat == arm.pat,
            r.body@ == sequenced(final(self).pending().reverse()),
    {
        let Arm { pat, body } = arm;
        let (breakless_body, arm_ending) = parse_arm(body);
        if let ArmEnd::Break = arm_ending {
            self.arm_exprs.clear();
        }
        let ghost before = self.arm_exprs@;
        self.arm_exprs.push(breakless_body);
        assert(self.pending() =~= before.map_values(|e: Expr<L>| e@).push(breakless_body@));
        Arm { pat, body: self.as_arm_body() }
    }

    /// A block that runs every body held in source order (the last pushed
    /// first) and yields the value of the bottom one.
    pub fn as_arm_body(&self) -> (r: Expr<L>)
        requires
            self.pending().len() > 0,
        ensures
            r@ == sequenced(self.pending().reverse()),
    {
        let n: usize = self.arm_exprs.len();
        let ghost target = sequenced(self.pending().reverse());
        let mut stmts: Vec<Stmt<L>> = Vec::with_capacity(n);
        let mut i: usize = n;
        while i > 0
            invariant
                i <= n == self.arm_exprs@.len(),
                target == sequenced(self.pending().reverse()),
                stmts@.len() == n - i,
                stmts_view(stmts@) =~= target->Block_1.subrange(0, (n - i) as int),
            decreases i,
        {
            i = i - 1;
            let e = self.arm_exprs[i].duplicate();
            let ghost before = stmts@;
            if i == 0 {
                stmts.push(Stmt::Expr(e));
            } else {
                stmts.push(Stmt::Semi(e));
            }
            proof {
                let j = (n - 1 - i) as int;
                assert(stmts@.subrange(0, stmts@.len() - 1) =~= before);
                assert(stmts_view(stmts@) == stmts_view(before).push(stmts@[j]@));
                assert(self.pending().reverse()[j] == self.arm_exprs@[i as int]@);
                assert(target->Block_1[j] == stmts@[j]@);
                assert(target->Block_1.subrange(0, (n - i) as int).subrange(0, (n - i - 1) as int)
                    =~= target->Block_1.subrange(0, (n - i - 1) as int));
            }
        }
        assert(target->Block_1.subrange(0, n as int) =~= target->Block_1);
        Expr::Block(Block { frame: None, stmts })
    }
}

/// Gives a `match` C-style fallthrough: entering an arm runs its body and
/// then the bodies of the arms below it, up to the first arm that ends in an
/// explicit `break` (whose `break` is taken out), keeping the value of the
/// last body run. The arms keep their patterns and their number. Any other
/// expression comes back unchanged; nested expressions are not visited.
/// Applied to its own output, the rewrite nests the chains once more: it is
/// not idempotent.
pub fn fallthrough_expr<L: Copy>(expr: &Expr<L>) -> (r: Expr<L>)
    ensures
        r@ == fallthrough(expr@),
        (r@ is Match) == (expr@ is Match),
        patterns(r@) == patterns(expr@),
{
    match expr {
        Expr::Match(m) => {
            let ghost arms = arms_view(m.arms@);
            let ghost rewritten = fallthrough_arms(arms);
            proof {
                lemma_arms_view(m.arms@);
            }
            let n: usize = m.arms.len();
            let mut arm_masher: FallThru<L> = FallThru::new();
            // the rewritten arms, bottom arm first
            let mut mashed_arms: Vec<Arm<L>> = Vec::new();
            let mut k: usize = n;
            while k > 0
                invariant
                    k <= n == m.arms@.len(),
                    arms == arms_view(m.arms@),
                    rewritten == fallthrough_arms(arms),
                    arms.len() == n,
                    forall|j: int| 0 <= j < n ==> #[trigger] arms[j] == m.arms@[j]@,
                    arm_masher.pending().reverse() == chain(bodies(arms), k as int),
                    mashed_arms@.len() == n - k,
                    forall|j: int|
                        0 <= j < n - k ==> #[trigger] mashed_arms@[j]@ == rewritten[n - 1 - j],
                decreases k,
            {
                k = k - 1;
                let ghost before = arm_masher.pending();
                let arm = m.arms[k].duplicate();
                let folded = arm_masher.fold_arm(arm);
                proof {
                    let b = bodies(arms)[k as int];
                    assert(b == arm.body@);
                    if !ends_in_break(b) {
                        assert(arm_masher.pending().reverse() =~= seq![b] + before.reverse());
                    }
                    assert(arm_masher.pending().reverse() =~= chain(bodies(arms), k as int));
                }
                mashed_arms.push(folded);
            }
            let mut out: Vec<Arm<L>> = Vec::with_capacity(n);
            while mashed_arms.len() > 0
                invariant
                    n == arms.len(),
                    rewritten == fallthrough_arms(arms),
                    out@.len() + mashed_arms@.len() == n,
                    forall|j: int|
                        0 <= j < mashed_arms@.len() ==> #[trigger] mashed_arms@[j]@ == rewritten[n
                            - 1 - j],
                    forall|j: int| 0 <= j < out@.len() ==> #[trigger] out@[j]@ == rewritten[j],
                decreases mashed_arms@.len(),
            {
                match mashed_arms.pop() {
                    Some(a) => out.push(a),
                    None => {},
                }
            }
            proof {
                lemma_arms_view(out@);
                assert(arms_view(out@) =~= rewritten);
                assert(patterns(fallthrough(expr@)) =~= patterns(expr@));
            }
            Expr::Match(Match { head: m.head, arms: out })
        },
        _ => expr.duplicate(),
    }
}

/// Rewrites a function body: every statement that is a `match` gets
/// fallthrough arms (see [`fallthrough_expr`]); every other statement is
/// kept as it is. The body keeps its length.
pub fn fallthrough_stmts<L: Copy>(stmts: &Vec<Stmt<L>>) -> (r: Vec<Stmt<L>>)
    ensures
        r@.len() == stmts@.len(),
        stmts_view(r@) == stmts_view(stmts@).map_values(|s: SpecStmt<L>| fallthrough_stmt(s)),
{
    let mut fallthru_stmts: Vec<Stmt<L>> = Vec::with_capacity(stmts.len());
    let mut i: usize = 0;
    proof {
        lemma_stmts_view(stmts@);
    }
    while i < stmts.len()
        invariant
            i <= stmts@.len(),
            fallthru_stmts@.len() == i,
            forall|j: int|
                0 <= j < i ==> #[trigger] fallthru_stmts@[j]@ == fallthrough_stmt(stmts@[j]@),
        decreases stmts@.len() - i,
    {
        let stmt = match &stmts[i] {
            Stmt::Decl(l) => Stmt::Decl(*l),
            Stmt::Expr(expr) => Stmt::Expr(fallthrough_expr(expr)),
            Stmt::Semi(expr) => Stmt::Semi(fallthrough_expr(expr)),
        };
        fallthru_stmts.push(stmt);
        i = i + 1;
    }
    proof {
        lemma_stmts_view(fallthru_stmts@);
        assert forall|j: int| 0 <= j < i implies #[trigger] stmts_view(fallthru_stmts@)[j]
            == fallthrough_stmt(stmts_view(stmts@)[j]) by {
            assert(fallthru_stmts@[j]@ == fallthrough_stmt(stmts@[j]@));
        }
        assert(stmts_view(fallthru_stmts@) =~= stmts_view(stmts@).map_values(
            |s: SpecStmt<L>| fallthrough_stmt(s),
        ));
    }
    fallthru_stmts
}

/// Where no arm from `i` on ends in `break`, the chain of arm `i` is every
/// body from `i` to the last.
proof fn lemma_chain_to_end<L>(bs: Seq<SpecExpr<L>>, i: int)
    requires
        0 <= i <= bs.len(),
        forall|j: int| i <= j < bs.len() ==> !ends_in_break(#[trigger] bs[j]),
    ensures
        chain(bs, i) == bs.subrange(i, bs.len() as int),
    decreases bs.len() - i,
{
    if i < bs.len() {
        lemma_chain_to_end(bs, i + 1);
        assert(chain(bs, i) =~= bs.subrange(i, bs.len() as int));
    } else {
        assert(chain(bs, i) =~= bs.subrange(i, bs.len() as int));
    }
}

/// Where arm `k` is the first from `i` on that ends in `break`, the chain of
/// arm `i` is the bodies from `i` to `k`, the last without its `break`.
proof fn lemma_chain_to_break<L>(bs: Seq<SpecExpr<L>>, i: int, k: int)
    requires
        0 <= i <= k < bs.len(),
        ends_in_break(bs[k]),
        forall|j: int| i <= j < k ==> !ends_in_break(#[trigger] bs[j]),
    ensures
        chain(bs, i) == bs.subrange(i, k).push(without_break(bs[k])),
    decreases k - i,
{
    if i < k {
        lemma_chain_to_break(bs, i + 1, k);
    }
    assert(chain(bs, i) =~= bs.subrange(i, k).push(without_break(bs[k])));
}

/// In a `match` where no arm ends in `break`, the rewritten arm `i` runs the
/// original bodies of arm `i` and of every arm below it, in order, and keeps
/// only the value of the last arm.
pub proof fn lemma_fallthrough_without_breaks<L>(head: L, arms: Seq<SpecArm<L>>, i: int)
    requires
        0 <= i < arms.len(),
        forall|j: int| 0 <= j < arms.len() ==> !ends_in_break(#[trigger] arms[j].body),
    ensures
        fallthrough(SpecExpr::Match(head, arms)) == SpecExpr::Match(head, fallthrough_arms(arms)),
        fallthrough_arms(arms)[i].body == sequenced(bodies(arms).subrange(i, arms.len() as int)),
{
    let bs = bodies(arms);
    assert forall|j: int| i <= j < bs.len() implies !ends_in_break(#[trigger] bs[j]) by {
        assert(bs[j] == arms[j].body);
    }
    lemma_chain_to_end(bs, i);
}

/// In a `match` whose arm `k` ends in `break`, the rewritten arm `i`, for
/// `i <= k` with no `break` at the end of arms `i` to `k - 1`, runs the
/// original bodies of arms `i` to `k`, that of `k` without its `break`, and
/// nothing below `k`; it keeps the value of arm `k`.
pub proof fn lemma_fallthrough_stops_at_break<L>(head: L, arms: Seq<SpecArm<L>>, i: int, k: int)
    requires
        0 <= i <= k < arms.len(),
        ends_in_break(arms[k].body),
        forall|j: int| i <= j < k ==> !ends_in_break(#[trigger] arms[j].body),
    ensures
        fallthrough(SpecExpr::Match(head, arms)) == SpecExpr::Match(head, fallthrough_arms(arms)),
        fallthrough_arms(arms)[i].body == sequenced(
            bodies(arms).subrange(i, k).push(without_break(arms[k].body)),
        ),
{
    let bs = bodies(arms);
    assert forall|j: int| i <= j < k implies !ends_in_break(#[trigger] bs[j]) by {
        assert(bs[j] == arms[j].body);
    }
    lemma_chain_to_break(bs, i, k);
}

} // verus!
