use plutonium::fallthrough::{
    fallthrough_expr, fallthrough_stmts, is_break, parse_arm, ArmEnd, FallThru,
};
use plutonium::syntax::{Arm, Block, Expr, Match, Stmt};

type E = Expr<&'static str>;

fn other(s: &'static str) -> E {
    Expr::Other(s)
}

fn block(stmts: Vec<Stmt<&'static str>>) -> E {
    Expr::Block(Block { frame: None, stmts })
}

fn framed(frame: &'static str, stmts: Vec<Stmt<&'static str>>) -> E {
    Expr::Block(Block { frame: Some(frame), stmts })
}

fn arm(pat: &'static str, body: E) -> Arm<&'static str> {
    Arm { pat, body }
}

fn match_of(arms: Vec<Arm<&'static str>>) -> E {
    Expr::Match(Match { head: "x", arms })
}

fn arms_of(e: &E) -> &Vec<Arm<&'static str>> {
    match e {
        Expr::Match(m) => &m.arms,
        _ => panic!("not a match"),
    }
}

#[derive(Debug, PartialEq)]
enum Flow {
    Value(&'static str),
    Broke,
}

/// Runs an expression: each opaque piece records itself in `trace` and is
/// its own value.
fn run(e: &E, trace: &mut Vec<&'static str>) -> Flow {
    match e {
        Expr::Break(_) => Flow::Broke,
        Expr::Unit => Flow::Value("()"),
        Expr::Other(s) => {
            trace.push(s);
            Flow::Value(s)
        }
        Expr::Match(_) => panic!("nested match"),
        Expr::Block(b) => {
            let mut value = "()";
            for st in &b.stmts {
                match st {
                    Stmt::Decl(s) => {
                        trace.push(s);
                        value = "()";
                    }
                    Stmt::Semi(e) => match run(e, trace) {
                        Flow::Broke => return Flow::Broke,
                        Flow::Value(_) => value = "()",
                    },
                    Stmt::Expr(e) => match run(e, trace) {
                        Flow::Broke => return Flow::Broke,
                        Flow::Value(v) => value = v,
                    },
                }
            }
            Flow::Value(value)
        }
    }
}

/// Enters arm `i` of a `match` and reports what ran and the value.
fn enter(m: &E, i: usize) -> (Vec<&'static str>, Flow) {
    let mut trace = Vec::new();
    let flow = run(&arms_of(m)[i].body, &mut trace);
    (trace, flow)
}

#[test]
fn three_arms_all_fall_through() {
    let m = match_of(vec![
        arm("1", other("s += 1")),
        arm("2", other("s += 2")),
        arm("_", other("default")),
    ]);
    let r = fallthrough_expr(&m);
    assert_eq!(enter(&r, 0), (vec!["s += 1", "s += 2", "default"], Flow::Value("default")));
    assert_eq!(enter(&r, 1), (vec!["s += 2", "default"], Flow::Value("default")));
    assert_eq!(enter(&r, 2), (vec!["default"], Flow::Value("default")));
}

#[test]
fn three_arms_exact_bodies() {
    let m = match_of(vec![arm("1", other("a")), arm("2", other("b")), arm("_", other("c"))]);
    let r = fallthrough_expr(&m);
    let expected = match_of(vec![
        arm(
            "1",
            block(vec![
                Stmt::Semi(other("a")),
                Stmt::Semi(other("b")),
                Stmt::Expr(other("c")),
            ]),
        ),
        arm("2", block(vec![Stmt::Semi(other("b")), Stmt::Expr(other("c"))])),
        arm("_", block(vec![Stmt::Expr(other("c"))])),
    ]);
    assert_eq!(r, expected);
}

#[test]
fn break_arm_then_plain_arm() {
    let m = match_of(vec![
        arm("13", block(vec![Stmt::Semi(other("13")), Stmt::Semi(Expr::Break("break"))])),
        arm("_", other("lol")),
    ]);
    let r = fallthrough_expr(&m);
    assert_eq!(enter(&r, 0), (vec!["13"], Flow::Value("13")));
    assert_eq!(enter(&r, 1), (vec!["lol"], Flow::Value("lol")));
}

#[test]
fn break_arm_above_fallthrough_arms() {
    let m = match_of(vec![
        arm("13", block(vec![Stmt::Semi(other("13")), Stmt::Semi(Expr::Break("break"))])),
        arm("14", other("14")),
        arm("_", other("lol")),
    ]);
    let r = fallthrough_expr(&m);
    assert_eq!(enter(&r, 0), (vec!["13"], Flow::Value("13")));
    assert_eq!(enter(&r, 1), (vec!["14", "lol"], Flow::Value("lol")));
    assert_eq!(enter(&r, 2), (vec!["lol"], Flow::Value("lol")));
}

#[test]
fn bare_break_arm_stops_the_chain() {
    let m = match_of(vec![
        arm("a", other("a")),
        arm("b", Expr::Break("break")),
        arm("_", other("c")),
    ]);
    let r = fallthrough_expr(&m);
    assert_eq!(enter(&r, 0), (vec!["a"], Flow::Value("()")));
    assert_eq!(enter(&r, 1), (vec![], Flow::Value("()")));
    assert_eq!(enter(&r, 2), (vec!["c"], Flow::Value("c")));
    let expected_b = block(vec![Stmt::Expr(Expr::Unit)]);
    assert_eq!(arms_of(&r)[1].body, expected_b);
}

#[test]
fn chain_stops_at_nearest_break() {
    let m = match_of(vec![
        arm("0", other("p")),
        arm("1", block(vec![Stmt::Semi(other("q")), Stmt::Expr(Expr::Break("break"))])),
        arm("2", other("r")),
        arm("3", block(vec![Stmt::Expr(other("s")), Stmt::Semi(Expr::Break("break"))])),
        arm("_", other("t")),
    ]);
    let r = fallthrough_expr(&m);
    assert_eq!(enter(&r, 0), (vec!["p", "q"], Flow::Value("q")));
    assert_eq!(enter(&r, 1), (vec!["q"], Flow::Value("q")));
    assert_eq!(enter(&r, 2), (vec!["r", "s"], Flow::Value("s")));
    assert_eq!(enter(&r, 3), (vec!["s"], Flow::Value("s")));
    assert_eq!(enter(&r, 4), (vec!["t"], Flow::Value("t")));
}

#[test]
fn arms_keep_patterns_and_count() {
    let m = match_of(vec![
        arm("p0", other("a")),
        arm("p1", Expr::Break("break")),
        arm("p2", other("b")),
        arm("p3", other("c")),
    ]);
    let r = fallthrough_expr(&m);
    let pats: Vec<&str> = arms_of(&r).iter().map(|a| a.pat).collect();
    assert_eq!(pats, vec!["p0", "p1", "p2", "p3"]);
    match &r {
        Expr::Match(rm) => assert_eq!(rm.head, "x"),
        _ => panic!("not a match"),
    }
}

#[test]
fn empty_match_is_unchanged() {
    let m = match_of(vec![]);
    assert_eq!(fallthrough_expr(&m), match_of(vec![]));
}

#[test]
fn other_expressions_are_unchanged() {
    assert_eq!(fallthrough_expr(&other("f(x)")), other("f(x)"));
    assert_eq!(fallthrough_expr(&Expr::Break("break")), Expr::Break("break"));
    let b = framed("'a:", vec![Stmt::Expr(match_of(vec![arm("_", other("a"))]))]);
    let same = framed("'a:", vec![Stmt::Expr(match_of(vec![arm("_", other("a"))]))]);
    assert_eq!(fallthrough_expr(&b), same);
}

#[test]
fn statements_rewritten_in_place() {
    let stmts = vec![
        Stmt::Decl("let mut s = String::new();"),
        Stmt::Semi(match_of(vec![arm("1", other("a")), arm("_", other("b"))])),
        Stmt::Expr(other("s")),
    ];
    let r = fallthrough_stmts(&stmts);
    assert_eq!(r.len(), 3);
    assert_eq!(r[0], Stmt::Decl("let mut s = String::new();"));
    assert_eq!(
        r[1],
        Stmt::Semi(match_of(vec![
            arm("1", block(vec![Stmt::Semi(other("a")), Stmt::Expr(other("b"))])),
            arm("_", block(vec![Stmt::Expr(other("b"))])),
        ]))
    );
    assert_eq!(r[2], Stmt::Expr(other("s")));
}

#[test]
fn tail_match_statement_rewritten() {
    let stmts = vec![Stmt::Expr(match_of(vec![arm("1", other("a")), arm("_", other("b"))]))];
    let r = fallthrough_stmts(&stmts);
    assert_eq!(
        r,
        vec![Stmt::Expr(match_of(vec![
            arm("1", block(vec![Stmt::Semi(other("a")), Stmt::Expr(other("b"))])),
            arm("_", block(vec![Stmt::Expr(other("b"))])),
        ]))]
    );
}

#[test]
fn empty_body_stays_empty() {
    assert_eq!(fallthrough_stmts(&Vec::<Stmt<&'static str>>::new()), vec![]);
}

#[test]
fn parse_arm_bare_break() {
    assert_eq!(parse_arm(Expr::Break("break 'outer")), (Expr::Unit, ArmEnd::Break));
}

#[test]
fn parse_arm_block_with_semi_before_break() {
    let body = framed("#[attr]", vec![Stmt::Semi(other("13")), Stmt::Semi(Expr::Break("break"))]);
    assert_eq!(parse_arm(body), (framed("#[attr]", vec![Stmt::Expr(other("13"))]), ArmEnd::Break));
}

#[test]
fn parse_arm_block_keeps_non_semi_before_break() {
    let body = block(vec![Stmt::Decl("let y = 1;"), Stmt::Expr(Expr::Break("break"))]);
    assert_eq!(parse_arm(body), (block(vec![Stmt::Decl("let y = 1;")]), ArmEnd::Break));
}

#[test]
fn parse_arm_block_of_only_break() {
    let body = block(vec![Stmt::Semi(Expr::Break("break"))]);
    assert_eq!(parse_arm(body), (block(vec![]), ArmEnd::Break));
}

#[test]
fn parse_arm_break_not_last_falls_through() {
    let body = block(vec![Stmt::Semi(Expr::Break("break")), Stmt::Semi(other("a"))]);
    let same = block(vec![Stmt::Semi(Expr::Break("break")), Stmt::Semi(other("a"))]);
    assert_eq!(parse_arm(body), (same, ArmEnd::FallThru));
}

#[test]
fn parse_arm_plain_and_empty_block() {
    assert_eq!(parse_arm(other("a")), (other("a"), ArmEnd::FallThru));
    assert_eq!(parse_arm(block(vec![])), (block(vec![]), ArmEnd::FallThru));
}

#[test]
fn is_break_both_forms() {
    assert!(is_break(&Stmt::Expr(Expr::Break("break"))));
    assert!(is_break(&Stmt::<&str>::Semi(Expr::Break("break"))));
    assert!(!is_break(&Stmt::Semi(other("a"))));
    assert!(!is_break(&Stmt::Decl("let a = 1;")));
}

#[test]
fn accumulator_clears_on_break() {
    let mut acc: FallThru<&'static str> = FallThru::new();
    let a = acc.fold_arm(arm("_", other("c")));
    assert_eq!(a, arm("_", block(vec![Stmt::Expr(other("c"))])));
    let b = acc.fold_arm(arm("2", other("b")));
    assert_eq!(b, arm("2", block(vec![Stmt::Semi(other("b")), Stmt::Expr(other("c"))])));
    assert_eq!(acc.arm_exprs.len(), 2);
    let c = acc.fold_arm(arm("1", block(vec![Stmt::Semi(other("a")), Stmt::Semi(Expr::Break("break"))])));
    assert_eq!(c, arm("1", block(vec![Stmt::Expr(block(vec![Stmt::Expr(other("a"))]))])));
    assert_eq!(acc.arm_exprs.len(), 1);
}

#[test]
fn arm_body_runs_newest_first() {
    let acc = FallThru { arm_exprs: vec![other("bottom"), other("middle"), other("top")] };
    assert_eq!(
        acc.as_arm_body(),
        block(vec![
            Stmt::Semi(other("top")),
            Stmt::Semi(other("middle")),
            Stmt::Expr(other("bottom")),
        ])
    );
}

#[test]
fn duplicate_is_equal() {
    let e = framed("'l:", vec![
        Stmt::Decl("let a = 1;"),
        Stmt::Semi(match_of(vec![arm("_", Expr::Break("break"))])),
        Stmt::Expr(Expr::Unit),
    ]);
    assert_eq!(e.duplicate(), e);
}
