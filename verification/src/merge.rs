//! Package linking: the procedures of packages that a program calls as
//! `pkg::proc`, directly or through other package procedures, are copied into
//! the program under fresh names, and the calls are renamed to match.
use vstd::prelude::*;
use crate::ast::{
    Expr, ExprV, Stmt, StmtV, Item, ItemV, ProcedureDef, ProcedureDefV, Package, PackageV,
    exprs_view, stmts_view, arms_view, items_view, strs_view, lemma_exprs_view,
    lemma_stmts_view, lemma_arms_view, lemma_items_view, lemma_exprs_view_push,
    lemma_stmts_view_push, lemma_arms_view_push, lemma_items_view_push, copy_string_opt,
};
use crate::text::{str_eq, nat_decimal, digit_char, u64_decimal, push_char, chars_of};
use crate::transform::{
    scan_stmts, ss_size, s_size, e_size, es_size, lit, push_expr, push_stmt, push_name, names_contain,
    push_item, scan_stmts_for_calls, item_fits, items_fit, slot_limit,
};

verus! {

broadcast use crate::text::lemma_add_assoc;

/// `a::b`
pub open spec fn qualified(a: Seq<char>, b: Seq<char>) -> Seq<char> {
    a + seq![':', ':'] + b
}

// ---------------------------------------------------------------------------
// Qualifying the calls inside a package procedure
// ---------------------------------------------------------------------------

/// A call of a procedure of the package gets the package's name in front;
/// every sub-expression is visited.
pub open spec fn q_expr(e: ExprV, pkg: Seq<char>, procs: Seq<Seq<char>>) -> ExprV
    decreases e,
{
    match e {
        ExprV::Call(n, args) => ExprV::Call(
            if procs.contains(n) { qualified(pkg, n) } else { n },
            q_exprs(args, pkg, procs),
        ),
        ExprV::BinOp(l, op, r) => ExprV::BinOp(
            Box::new(q_expr(*l, pkg, procs)),
            op,
            Box::new(q_expr(*r, pkg, procs)),
        ),
        ExprV::UnOp(op, x) => ExprV::UnOp(op, Box::new(q_expr(*x, pkg, procs))),
        ExprV::List(xs) => ExprV::List(q_exprs(xs, pkg, procs)),
        _ => e,
    }
}

pub open spec fn q_exprs(s: Seq<ExprV>, pkg: Seq<char>, procs: Seq<Seq<char>>) -> Seq<ExprV>
    decreases s,
{
    if s.len() == 0 {
        s
    } else {
        q_exprs(s.subrange(0, s.len() - 1), pkg, procs).push(q_expr(s[s.len() - 1], pkg, procs))
    }
}

/// `e` calls none of the procedures named in `procs`.
pub open spec fn calls_none_of(e: ExprV, procs: Seq<Seq<char>>) -> bool
    decreases e,
{
    match e {
        ExprV::Call(n, args) => !procs.contains(n) && calls_none_of_all(args, procs),
        ExprV::BinOp(l, _, r) => calls_none_of(*l, procs) && calls_none_of(*r, procs),
        ExprV::UnOp(_, x) => calls_none_of(*x, procs),
        ExprV::List(xs) => calls_none_of_all(xs, procs),
        _ => true,
    }
}

pub open spec fn calls_none_of_all(s: Seq<ExprV>, procs: Seq<Seq<char>>) -> bool
    decreases s,
{
    if s.len() == 0 {
        true
    } else {
        calls_none_of_all(s.subrange(0, s.len() - 1), procs) && calls_none_of(s[s.len() - 1], procs)
    }
}

/// `e2` is `e` with, at most, the names of its calls changed: every operator
/// keeps its operands in their places, and every list and argument list its
/// elements in their order.
pub open spec fn renames_calls_only(e: ExprV, e2: ExprV) -> bool
    decreases e,
{
    match e {
        ExprV::Call(_, args) => e2 is Call && renames_calls_only_all(args, e2->Call_1),
        ExprV::BinOp(l, op, r) => e2 is BinOp && e2->BinOp_1 == op
            && renames_calls_only(*l, *e2->BinOp_0) && renames_calls_only(*r, *e2->BinOp_2),
        ExprV::UnOp(op, x) => e2 is UnOp && e2->UnOp_0 == op && renames_calls_only(*x, *e2->UnOp_1),
        ExprV::List(xs) => e2 is List && renames_calls_only_all(xs, e2->List_0),
        _ => e2 == e,
    }
}

pub open spec fn renames_calls_only_all(s: Seq<ExprV>, s2: Seq<ExprV>) -> bool
    decreases s,
{
    &&& s2.len() == s.len()
    &&& s.len() > 0 ==> {
        &&& renames_calls_only_all(s.subrange(0, s.len() - 1), s2.subrange(0, s2.len() - 1))
        &&& renames_calls_only(s[s.len() - 1], s2[s2.len() - 1])
    }
}

/// Qualifying leaves an expression that calls no procedure of the package as
/// it is.
pub proof fn law_qualify_without_package_calls(e: ExprV, pkg: Seq<char>, procs: Seq<Seq<char>>)
    requires
        calls_none_of(e, procs),
    ensures
        q_expr(e, pkg, procs) == e,
    decreases e,
{
    match e {
        ExprV::Call(n, args) => lemma_qualify_all_without_package_calls(args, pkg, procs),
        ExprV::BinOp(l, _, r) => {
            law_qualify_without_package_calls(*l, pkg, procs);
            law_qualify_without_package_calls(*r, pkg, procs);
        },
        ExprV::UnOp(_, x) => law_qualify_without_package_calls(*x, pkg, procs),
        ExprV::List(xs) => lemma_qualify_all_without_package_calls(xs, pkg, procs),
        _ => {},
    }
}

proof fn lemma_qualify_all_without_package_calls(s: Seq<ExprV>, pkg: Seq<char>, procs: Seq<Seq<char>>)
    requires
        calls_none_of_all(s, procs),
    ensures
        q_exprs(s, pkg, procs) == s,
    decreases s,
{
    if s.len() > 0 {
        let init = s.subrange(0, s.len() - 1);
        lemma_qualify_all_without_package_calls(init, pkg, procs);
        law_qualify_without_package_calls(s[s.len() - 1], pkg, procs);
        assert(init.push(s[s.len() - 1]) =~= s);
    }
}

/// Qualifying changes nothing but the names of calls: the operands of every
/// operator stay where they were, and the elements of every list and
/// argument list keep their order.
pub proof fn law_qualify_renames_calls_only(e: ExprV, pkg: Seq<char>, procs: Seq<Seq<char>>)
    ensures
        renames_calls_only(e, q_expr(e, pkg, procs)),
    decreases e,
{
    match e {
        ExprV::Call(n, args) => lemma_qualify_all_renames_calls_only(args, pkg, procs),
        ExprV::BinOp(l, _, r) => {
            law_qualify_renames_calls_only(*l, pkg, procs);
            law_qualify_renames_calls_only(*r, pkg, procs);
        },
        ExprV::UnOp(_, x) => law_qualify_renames_calls_only(*x, pkg, procs),
        ExprV::List(xs) => lemma_qualify_all_renames_calls_only(xs, pkg, procs),
        _ => {},
    }
}

proof fn lemma_qualify_all_renames_calls_only(s: Seq<ExprV>, pkg: Seq<char>, procs: Seq<Seq<char>>)
    ensures
        renames_calls_only_all(s, q_exprs(s, pkg, procs)),
    decreases s,
{
    if s.len() > 0 {
        let init = s.subrange(0, s.len() - 1);
        let q = q_exprs(s, pkg, procs);
        lemma_qualify_all_renames_calls_only(init, pkg, procs);
        law_qualify_renames_calls_only(s[s.len() - 1], pkg, procs);
        assert(q.subrange(0, q.len() - 1) =~= q_exprs(init, pkg, procs));
    }
}

pub open spec fn q_stmt(s: StmtV, pkg: Seq<char>, procs: Seq<Seq<char>>) -> StmtV
    decreases s,
{
    match s {
        StmtV::Expr(e, c) => StmtV::Expr(q_expr(e, pkg, procs), c),
        StmtV::Let(n, e, c) => StmtV::Let(n, q_expr(e, pkg, procs), c),
        StmtV::Assign(n, e, c) => StmtV::Assign(n, q_expr(e, pkg, procs), c),
        StmtV::Return(oe, c) => StmtV::Return(
            match oe {
                Some(e) => Some(q_expr(e, pkg, procs)),
                None => None,
            },
            c,
        ),
        StmtV::If(cond, t, oe, c) => StmtV::If(
            q_expr(cond, pkg, procs),
            q_stmts(t, pkg, procs),
            match oe {
                Some(b) => Some(q_stmts(b, pkg, procs)),
                None => None,
            },
            c,
        ),
        StmtV::Repeat(n, b, c) => StmtV::Repeat(q_expr(n, pkg, procs), q_stmts(b, pkg, procs), c),
        StmtV::Forever(b, c) => StmtV::Forever(q_stmts(b, pkg, procs), c),
        StmtV::Until(cond, b, c) => StmtV::Until(q_expr(cond, pkg, procs), q_stmts(b, pkg, procs), c),
        StmtV::Match(e, arms, d, c) => StmtV::Match(
            q_expr(e, pkg, procs),
            q_arms(arms, pkg, procs),
            match d {
                Some(b) => Some(q_stmts(b, pkg, procs)),
                None => None,
            },
            c,
        ),
        StmtV::CBlock(n, args, b, c) => StmtV::CBlock(n, q_exprs(args, pkg, procs), q_stmts(b, pkg, procs), c),
        StmtV::Comment(_) => s,
    }
}

pub open spec fn q_stmts(s: Seq<StmtV>, pkg: Seq<char>, procs: Seq<Seq<char>>) -> Seq<StmtV>
    decreases s,
{
    if s.len() == 0 {
        s
    } else {
        q_stmts(s.subrange(0, s.len() - 1), pkg, procs).push(q_stmt(s[s.len() - 1], pkg, procs))
    }
}

pub open spec fn q_arms(
    s: Seq<(ExprV, Seq<StmtV>)>,
    pkg: Seq<char>,
    procs: Seq<Seq<char>>,
) -> Seq<(ExprV, Seq<StmtV>)>
    decreases s,
{
    if s.len() == 0 {
        s
    } else {
        q_arms(s.subrange(0, s.len() - 1), pkg, procs).push(
            (q_expr(s[s.len() - 1].0, pkg, procs), q_stmts(s[s.len() - 1].1, pkg, procs)),
        )
    }
}

// ---------------------------------------------------------------------------
// Renaming calls of linked procedures
// ---------------------------------------------------------------------------

/// The value of the first entry for `k`.
pub open spec fn pair_lookup(m: Seq<(Seq<char>, Seq<char>)>, k: Seq<char>) -> Option<Seq<char>>
    decreases m.len(),
{
    if m.len() == 0 {
        None
    } else {
        let r = pair_lookup(m.subrange(0, m.len() - 1), k);
        if r is Some {
            r
        } else if m[m.len() - 1].0 == k {
            Some(m[m.len() - 1].1)
        } else {
            None
        }
    }
}

/// The views of a list of name pairs.
pub open spec fn pairs_view(m: Seq<(String, String)>) -> Seq<(Seq<char>, Seq<char>)> {
    m.map_values(|p: (String, String)| (p.0@, p.1@))
}

/// A call named in `m` takes its new name; calls are looked for in call
/// arguments and binary operands only.
pub open spec fn r_expr(e: ExprV, m: Seq<(Seq<char>, Seq<char>)>) -> ExprV
    decreases e,
{
    match e {
        ExprV::Call(n, args) => ExprV::Call(
            match pair_lookup(m, n) {
                Some(x) => x,
                None => n,
            },
            r_exprs(args, m),
        ),
        ExprV::BinOp(l, op, r) => ExprV::BinOp(Box::new(r_expr(*l, m)), op, Box::new(r_expr(*r, m))),
        _ => e,
    }
}

pub open spec fn r_exprs(s: Seq<ExprV>, m: Seq<(Seq<char>, Seq<char>)>) -> Seq<ExprV>
    decreases s,
{
    if s.len() == 0 {
        s
    } else {
        r_exprs(s.subrange(0, s.len() - 1), m).push(r_expr(s[s.len() - 1], m))
    }
}

/// The statements that are looked into are those with an expression and the
/// loops and conditionals; `match` and C-blocks are left as they are.
pub open spec fn r_stmt(s: StmtV, m: Seq<(Seq<char>, Seq<char>)>) -> StmtV
    decreases s,
{
    match s {
        StmtV::Expr(e, c) => StmtV::Expr(r_expr(e, m), c),
        StmtV::Let(n, e, c) => StmtV::Let(n, r_expr(e, m), c),
        StmtV::Assign(n, e, c) => StmtV::Assign(n, r_expr(e, m), c),
        StmtV::Return(oe, c) => StmtV::Return(
            match oe {
                Some(e) => Some(r_expr(e, m)),
                None => None,
            },
            c,
        ),
        StmtV::If(cond, t, oe, c) => StmtV::If(
            r_expr(cond, m),
            r_stmts(t, m),
            match oe {
                Some(b) => Some(r_stmts(b, m)),
                None => None,
            },
            c,
        ),
        StmtV::Repeat(n, b, c) => StmtV::Repeat(r_expr(n, m), r_stmts(b, m), c),
        StmtV::Forever(b, c) => StmtV::Forever(r_stmts(b, m), c),
        StmtV::Until(cond, b, c) => StmtV::Until(r_expr(cond, m), r_stmts(b, m), c),
        _ => s,
    }
}

pub open spec fn r_stmts(s: Seq<StmtV>, m: Seq<(Seq<char>, Seq<char>)>) -> Seq<StmtV>
    decreases s,
{
    if s.len() == 0 {
        s
    } else {
        r_stmts(s.subrange(0, s.len() - 1), m).push(r_stmt(s[s.len() - 1], m))
    }
}

// ---------------------------------------------------------------------------
// Qualifying and renaming, executably
// ---------------------------------------------------------------------------

fn qualified_name(pkg: &str, n: &String) -> (r: String)
    ensures
        r@ == qualified(pkg@, n@),
{
    let mut s = lit(pkg);
    push_char(&mut s, ':');
    push_char(&mut s, ':');
    s.append(n.as_str());
    assert(s@ =~= qualified(pkg@, n@));
    s
}

fn qualify_calls_in_expr(e: &Expr, pkg: &str, procs: &Vec<String>) -> (r: Expr)
    ensures
        r@ == q_expr(e@, pkg@, strs_view(procs@)),
    decreases e, 1nat,
{
    match e {
        Expr::Call(name, args) => {
            let n = if names_contain(procs, name) {
                qualified_name(pkg, name)
            } else {
                name.clone()
            };
            Expr::Call(n, qualify_args(args, pkg, procs))
        },
        Expr::BinOp(l, op, r) => Expr::BinOp(
            Box::new(qualify_calls_in_expr(l, pkg, procs)),
            *op,
            Box::new(qualify_calls_in_expr(r, pkg, procs)),
        ),
        Expr::UnOp(op, x) => Expr::UnOp(*op, Box::new(qualify_calls_in_expr(x, pkg, procs))),
        Expr::List(xs) => Expr::List(qualify_args(xs, pkg, procs)),
        _ => e.duplicate(),
    }
}

fn qualify_args(args: &Vec<Expr>, pkg: &str, procs: &Vec<String>) -> (r: Vec<Expr>)
    ensures
        exprs_view(r@) == q_exprs(exprs_view(args@), pkg@, strs_view(procs@)),
    decreases args, 0nat,
{
    let ghost all = exprs_view(args@);
    proof {
        lemma_exprs_view(args@);
    }
    let mut out: Vec<Expr> = Vec::new();
    assert(exprs_view(out@) =~= q_exprs(all.subrange(0, 0), pkg@, strs_view(procs@)));
    let mut i: usize = 0;
    while i < args.len()
        invariant
            i <= args.len(),
            all == exprs_view(args@),
            all.len() == args.len(),
            forall|k: int| 0 <= k < args.len() ==> #[trigger] all[k] == args@[k]@,
            exprs_view(out@) == q_exprs(all.subrange(0, i as int), pkg@, strs_view(procs@)),
        decreases args.len() - i,
    {
        assert(all.subrange(0, i + 1).subrange(0, i as int) =~= all.subrange(0, i as int));
        push_expr(&mut out, qualify_calls_in_expr(&args[i], pkg, procs));
        i += 1;
    }
    assert(all.subrange(0, i as int) =~= all);
    out
}

fn qualify_stmt(s: &Stmt, pkg: &str, procs: &Vec<String>) -> (r: Stmt)
    ensures
        r@ == q_stmt(s@, pkg@, strs_view(procs@)),
    decreases s, 1nat,
{
    match s {
        Stmt::Expr(e, c) => Stmt::Expr(qualify_calls_in_expr(e, pkg, procs), copy_string_opt(c)),
        Stmt::Let(n, e, c) => Stmt::Let(n.clone(), qualify_calls_in_expr(e, pkg, procs), copy_string_opt(c)),
        Stmt::Assign(n, e, c) => Stmt::Assign(
            n.clone(),
            qualify_calls_in_expr(e, pkg, procs),
            copy_string_opt(c),
        ),
        Stmt::Return(oe, c) => {
            let e2 = match oe {
                Some(e) => Some(qualify_calls_in_expr(e, pkg, procs)),
                None => None,
            };
            Stmt::Return(e2, copy_string_opt(c))
        },
        Stmt::If(cond, t, oe, c) => {
            let e2 = match oe {
                Some(b) => Some(qualify_calls(b, pkg, procs)),
                None => None,
            };
            Stmt::If(qualify_calls_in_expr(cond, pkg, procs), qualify_calls(t, pkg, procs), e2, copy_string_opt(c))
        },
        Stmt::Repeat(n, b, c) => Stmt::Repeat(
            qualify_calls_in_expr(n, pkg, procs),
            qualify_calls(b, pkg, procs),
            copy_string_opt(c),
        ),
        Stmt::Forever(b, c) => Stmt::Forever(qualify_calls(b, pkg, procs), copy_string_opt(c)),
        Stmt::Until(cond, b, c) => Stmt::Until(
            qualify_calls_in_expr(cond, pkg, procs),
            qualify_calls(b, pkg, procs),
            copy_string_opt(c),
        ),
        Stmt::Match(e, arms, d, c) => {
            let d2 = match d {
                Some(b) => Some(qualify_calls(b, pkg, procs)),
                None => None,
            };
            Stmt::Match(qualify_calls_in_expr(e, pkg, procs), qualify_arms(arms, pkg, procs), d2, copy_string_opt(c))
        },
        Stmt::CBlock(n, args, b, c) => Stmt::CBlock(
            n.clone(),
            qualify_args(args, pkg, procs),
            qualify_calls(b, pkg, procs),
            copy_string_opt(c),
        ),
        Stmt::Comment(_) => s.duplicate(),
    }
}

fn qualify_arms(arms: &Vec<(Expr, Vec<Stmt>)>, pkg: &str, procs: &Vec<String>) -> (r: Vec<(Expr, Vec<Stmt>)>)
    ensures
        arms_view(r@) == q_arms(arms_view(arms@), pkg@, strs_view(procs@)),
    decreases arms, 0nat,
{
    let ghost all = arms_view(arms@);
    proof {
        lemma_arms_view(arms@);
    }
    let mut out: Vec<(Expr, Vec<Stmt>)> = Vec::new();
    assert(arms_view(out@) =~= q_arms(all.subrange(0, 0), pkg@, strs_view(procs@)));
    let mut i: usize = 0;
    while i < arms.len()
        invariant
            i <= arms.len(),
            all == arms_view(arms@),
            all.len() == arms.len(),
            forall|k: int| 0 <= k < arms.len() ==> #[trigger] all[k] == (arms@[k].0@, stmts_view(arms@[k].1@)),
            arms_view(out@) == q_arms(all.subrange(0, i as int), pkg@, strs_view(procs@)),
        decreases arms.len() - i,
    {
        assert(all.subrange(0, i + 1).subrange(0, i as int) =~= all.subrange(0, i as int));
        let x = (qualify_calls_in_expr(&arms[i].0, pkg, procs), qualify_calls(&arms[i].1, pkg, procs));
        proof {
            lemma_arms_view_push(out@, x);
        }
        out.push(x);
        i += 1;
    }
    assert(all.subrange(0, i as int) =~= all);
    out
}

/// The statements with each call of a procedure of the package `pkg`
/// qualified by the package's name.
fn qualify_calls(stmts: &Vec<Stmt>, pkg: &str, procs: &Vec<String>) -> (r: Vec<Stmt>)
    ensures
        stmts_view(r@) == q_stmts(stmts_view(stmts@), pkg@, strs_view(procs@)),
    decreases stmts, 0nat,
{
    let ghost all = stmts_view(stmts@);
    proof {
        lemma_stmts_view(stmts@);
    }
    let mut out: Vec<Stmt> = Vec::new();
    assert(stmts_view(out@) =~= q_stmts(all.subrange(0, 0), pkg@, strs_view(procs@)));
    let mut i: usize = 0;
    while i < stmts.len()
        invariant
            i <= stmts.len(),
            all == stmts_view(stmts@),
            all.len() == stmts.len(),
            forall|k: int| 0 <= k < stmts.len() ==> #[trigger] all[k] == stmts@[k]@,
            stmts_view(out@) == q_stmts(all.subrange(0, i as int), pkg@, strs_view(procs@)),
        decreases stmts.len() - i,
    {
        assert(all.subrange(0, i + 1).subrange(0, i as int) =~= all.subrange(0, i as int));
        push_stmt(&mut out, qualify_stmt(&stmts[i], pkg, procs));
        i += 1;
    }
    assert(all.subrange(0, i as int) =~= all);
    out
}

proof fn lemma_pair_lookup_prefix(m: Seq<(Seq<char>, Seq<char>)>, i: int, k: Seq<char>)
    requires
        0 <= i <= m.len(),
        pair_lookup(m.subrange(0, i), k) is Some,
    ensures
        pair_lookup(m, k) == pair_lookup(m.subrange(0, i), k),
    decreases m.len() - i,
{
    if i < m.len() {
        assert(m.subrange(0, i + 1).subrange(0, i) =~= m.subrange(0, i));
        lemma_pair_lookup_prefix(m, i + 1, k);
    } else {
        assert(m.subrange(0, i) =~= m);
    }
}

/// The new name of a linked procedure, looked up by its qualified name.
fn lookup_pair(m: &Vec<(String, String)>, k: &String) -> (r: Option<String>)
    ensures
        match r {
            Some(x) => pair_lookup(pairs_view(m@), k@) == Some(x@),
            None => pair_lookup(pairs_view(m@), k@) is None,
        },
{
    let ghost pv = pairs_view(m@);
    let mut i: usize = 0;
    assert(pv.subrange(0, 0).len() == 0);
    while i < m.len()
        invariant
            i <= m.len(),
            pv == pairs_view(m@),
            pair_lookup(pv.subrange(0, i as int), k@) is None,
        decreases m.len() - i,
    {
        assert(pv.subrange(0, i + 1).subrange(0, i as int) =~= pv.subrange(0, i as int));
        if str_eq(m[i].0.as_str(), k.as_str()) {
            proof {
                lemma_pair_lookup_prefix(pv, i + 1, k@);
            }
            return Some(m[i].1.clone());
        }
        i += 1;
    }
    assert(pv.subrange(0, i as int) =~= pv);
    None
}

fn rename_calls_in_expr(e: &Expr, m: &Vec<(String, String)>) -> (r: Expr)
    ensures
        r@ == r_expr(e@, pairs_view(m@)),
    decreases e, 1nat,
{
    match e {
        Expr::Call(name, args) => {
            let n = match lookup_pair(m, name) {
                Some(x) => x,
                None => name.clone(),
            };
            Expr::Call(n, rename_args(args, m))
        },
        Expr::BinOp(l, op, r) => Expr::BinOp(
            Box::new(rename_calls_in_expr(l, m)),
            *op,
            Box::new(rename_calls_in_expr(r, m)),
        ),
        _ => e.duplicate(),
    }
}

fn rename_args(args: &Vec<Expr>, m: &Vec<(String, String)>) -> (r: Vec<Expr>)
    ensures
        exprs_view(r@) == r_exprs(exprs_view(args@), pairs_view(m@)),
    decreases args, 0nat,
{
    let ghost all = exprs_view(args@);
    proof {
        lemma_exprs_view(args@);
    }
    let mut out: Vec<Expr> = Vec::new();
    assert(exprs_view(out@) =~= r_exprs(all.subrange(0, 0), pairs_view(m@)));
    let mut i: usize = 0;
    while i < args.len()
        invariant
            i <= args.len(),
            all == exprs_view(args@),
            all.len() == args.len(),
            forall|k: int| 0 <= k < args.len() ==> #[trigger] all[k] == args@[k]@,
            exprs_view(out@) == r_exprs(all.subrange(0, i as int), pairs_view(m@)),
        decreases args.len() - i,
    {
        assert(all.subrange(0, i + 1).subrange(0, i as int) =~= all.subrange(0, i as int));
        push_expr(&mut out, rename_calls_in_expr(&args[i], m));
        i += 1;
    }
    assert(all.subrange(0, i as int) =~= all);
    out
}

fn rename_stmt(s: &Stmt, m: &Vec<(String, String)>) -> (r: Stmt)
    ensures
        r@ == r_stmt(s@, pairs_view(m@)),
    decreases s, 1nat,
{
    match s {
        Stmt::Expr(e, c) => Stmt::Expr(rename_calls_in_expr(e, m), copy_string_opt(c)),
        Stmt::Let(n, e, c) => Stmt::Let(n.clone(), rename_calls_in_expr(e, m), copy_string_opt(c)),
        Stmt::Assign(n, e, c) => Stmt::Assign(n.clone(), rename_calls_in_expr(e, m), copy_string_opt(c)),
        Stmt::Return(oe, c) => {
            let e2 = match oe {
                Some(e) => Some(rename_calls_in_expr(e, m)),
                None => None,
            };
            Stmt::Return(e2, copy_string_opt(c))
        },
        Stmt::If(cond, t, oe, c) => {
            let e2 = match oe {
                Some(b) => Some(rename_calls_in_stmts(b, m)),
                None => None,
            };
            Stmt::If(rename_calls_in_expr(cond, m), rename_calls_in_stmts(t, m), e2, copy_string_opt(c))
        },
        Stmt::Repeat(n, b, c) => Stmt::Repeat(
            rename_calls_in_expr(n, m),
            rename_calls_in_stmts(b, m),
            copy_string_opt(c),
        ),
        Stmt::Forever(b, c) => Stmt::Forever(rename_calls_in_stmts(b, m), copy_string_opt(c)),
        Stmt::Until(cond, b, c) => Stmt::Until(
            rename_calls_in_expr(cond, m),
            rename_calls_in_stmts(b, m),
            copy_string_opt(c),
        ),
        _ => s.duplicate(),
    }
}

/// The statements with each call of a linked procedure renamed.
fn rename_calls_in_stmts(stmts: &Vec<Stmt>, m: &Vec<(String, String)>) -> (r: Vec<Stmt>)
    ensures
        stmts_view(r@) == r_stmts(stmts_view(stmts@), pairs_view(m@)),
    decreases stmts, 0nat,
{
    let ghost all = stmts_view(stmts@);
    proof {
        lemma_stmts_view(stmts@);
    }
    let mut out: Vec<Stmt> = Vec::new();
    assert(stmts_view(out@) =~= r_stmts(all.subrange(0, 0), pairs_view(m@)));
    let mut i: usize = 0;
    while i < stmts.len()
        invariant
            i <= stmts.len(),
            all == stmts_view(stmts@),
            all.len() == stmts.len(),
            forall|k: int| 0 <= k < stmts.len() ==> #[trigger] all[k] == stmts@[k]@,
            stmts_view(out@) == r_stmts(all.subrange(0, i as int), pairs_view(m@)),
        decreases stmts.len() - i,
    {
        assert(all.subrange(0, i + 1).subrange(0, i as int) =~= all.subrange(0, i as int));
        push_stmt(&mut out, rename_stmt(&stmts[i], m));
        i += 1;
    }
    assert(all.subrange(0, i as int) =~= all);
    out
}

// ---------------------------------------------------------------------------
// Renaming and qualifying keep sizes
// ---------------------------------------------------------------------------

proof fn lemma_q_expr_size(e: ExprV, pkg: Seq<char>, procs: Seq<Seq<char>>)
    ensures
        e_size(q_expr(e, pkg, procs)) == e_size(e),
    decreases e,
{
    match e {
        ExprV::Call(_, args) => lemma_q_exprs_size(args, pkg, procs),
        ExprV::BinOp(l, _, r) => {
            lemma_q_expr_size(*l, pkg, procs);
            lemma_q_expr_size(*r, pkg, procs);
        },
        _ => {},
    }
}

proof fn lemma_q_exprs_size(s: Seq<ExprV>, pkg: Seq<char>, procs: Seq<Seq<char>>)
    ensures
        es_size(q_exprs(s, pkg, procs)) == es_size(s),
        q_exprs(s, pkg, procs).len() == s.len(),
    decreases s,
{
    if s.len() > 0 {
        let init = s.subrange(0, s.len() - 1);
        lemma_q_exprs_size(init, pkg, procs);
        lemma_q_expr_size(s[s.len() - 1], pkg, procs);
        let x = q_exprs(init, pkg, procs);
        assert(x.push(q_expr(s[s.len() - 1], pkg, procs)).subrange(0, x.len() as int) =~= x);
    }
}

proof fn lemma_q_stmt_size(st: StmtV, pkg: Seq<char>, procs: Seq<Seq<char>>)
    ensures
        s_size(q_stmt(st, pkg, procs)) == s_size(st),
    decreases st,
{
    match st {
        StmtV::Expr(e, _) => lemma_q_expr_size(e, pkg, procs),
        StmtV::Let(_, e, _) => lemma_q_expr_size(e, pkg, procs),
        StmtV::Assign(_, e, _) => lemma_q_expr_size(e, pkg, procs),
        StmtV::Return(oe, _) => {
            if let Some(e) = oe {
                lemma_q_expr_size(e, pkg, procs);
            }
        },
        StmtV::If(c, t, oe, _) => {
            lemma_q_expr_size(c, pkg, procs);
            lemma_q_stmts_size(t, pkg, procs);
            if let Some(b) = oe {
                lemma_q_stmts_size(b, pkg, procs);
            }
        },
        StmtV::Repeat(n, b, _) => {
            lemma_q_expr_size(n, pkg, procs);
            lemma_q_stmts_size(b, pkg, procs);
        },
        StmtV::Forever(b, _) => lemma_q_stmts_size(b, pkg, procs),
        StmtV::Until(c, b, _) => {
            lemma_q_expr_size(c, pkg, procs);
            lemma_q_stmts_size(b, pkg, procs);
        },
        _ => {},
    }
}

proof fn lemma_q_stmts_size(s: Seq<StmtV>, pkg: Seq<char>, procs: Seq<Seq<char>>)
    ensures
        ss_size(q_stmts(s, pkg, procs)) == ss_size(s),
        q_stmts(s, pkg, procs).len() == s.len(),
    decreases s,
{
    if s.len() > 0 {
        let init = s.subrange(0, s.len() - 1);
        lemma_q_stmts_size(init, pkg, procs);
        lemma_q_stmt_size(s[s.len() - 1], pkg, procs);
        let x = q_stmts(init, pkg, procs);
        assert(x.push(q_stmt(s[s.len() - 1], pkg, procs)).subrange(0, x.len() as int) =~= x);
    }
}

proof fn lemma_r_expr_size(e: ExprV, m: Seq<(Seq<char>, Seq<char>)>)
    ensures
        e_size(r_expr(e, m)) == e_size(e),
    decreases e,
{
    match e {
        ExprV::Call(_, args) => lemma_r_exprs_size(args, m),
        ExprV::BinOp(l, _, r) => {
            lemma_r_expr_size(*l, m);
            lemma_r_expr_size(*r, m);
        },
        _ => {},
    }
}

proof fn lemma_r_exprs_size(s: Seq<ExprV>, m: Seq<(Seq<char>, Seq<char>)>)
    ensures
        es_size(r_exprs(s, m)) == es_size(s),
        r_exprs(s, m).len() == s.len(),
    decreases s,
{
    if s.len() > 0 {
        let init = s.subrange(0, s.len() - 1);
        lemma_r_exprs_size(init, m);
        lemma_r_expr_size(s[s.len() - 1], m);
        let x = r_exprs(init, m);
        assert(x.push(r_expr(s[s.len() - 1], m)).subrange(0, x.len() as int) =~= x);
    }
}

proof fn lemma_r_stmt_size(st: StmtV, m: Seq<(Seq<char>, Seq<char>)>)
    ensures
        s_size(r_stmt(st, m)) == s_size(st),
    decreases st,
{
    match st {
        StmtV::Expr(e, _) => lemma_r_expr_size(e, m),
        StmtV::Let(_, e, _) => lemma_r_expr_size(e, m),
        StmtV::Assign(_, e, _) => lemma_r_expr_size(e, m),
        StmtV::Return(oe, _) => {
            if let Some(e) = oe {
                lemma_r_expr_size(e, m);
            }
        },
        StmtV::If(c, t, oe, _) => {
            lemma_r_expr_size(c, m);
            lemma_r_stmts_size(t, m);
            if let Some(b) = oe {
                lemma_r_stmts_size(b, m);
            }
        },
        StmtV::Repeat(n, b, _) => {
            lemma_r_expr_size(n, m);
            lemma_r_stmts_size(b, m);
        },
        StmtV::Forever(b, _) => lemma_r_stmts_size(b, m),
        StmtV::Until(c, b, _) => {
            lemma_r_expr_size(c, m);
            lemma_r_stmts_size(b, m);
        },
        _ => {},
    }
}

pub proof fn lemma_r_stmts_size(s: Seq<StmtV>, m: Seq<(Seq<char>, Seq<char>)>)
    ensures
        ss_size(r_stmts(s, m)) == ss_size(s),
        r_stmts(s, m).len() == s.len(),
    decreases s,
{
    if s.len() > 0 {
        let init = s.subrange(0, s.len() - 1);
        lemma_r_stmts_size(init, m);
        lemma_r_stmt_size(s[s.len() - 1], m);
        let x = r_stmts(init, m);
        assert(x.push(r_stmt(s[s.len() - 1], m)).subrange(0, x.len() as int) =~= x);
    }
}

// ---------------------------------------------------------------------------
// The linking loop, as spec functions
// ---------------------------------------------------------------------------

/// The first `::` at or after `i`.
pub open spec fn first_sep_from(s: Seq<char>, i: int) -> Option<int>
    decreases s.len() - i,
{
    if i < 0 || i + 1 >= s.len() {
        None
    } else if s[i] == ':' && s[i + 1] == ':' {
        Some(i)
    } else {
        first_sep_from(s, i + 1)
    }
}

/// A call name with exactly one `::` is the pair of the package and the
/// procedure.
pub open spec fn split_pkg_call(s: Seq<char>) -> Option<(Seq<char>, Seq<char>)> {
    match first_sep_from(s, 0) {
        Some(i) => {
            let b = s.subrange(i + 2, s.len() as int);
            if first_sep_from(b, 0) is None {
                Some((s.subrange(0, i), b))
            } else {
                None
            }
        },
        None => None,
    }
}

/// The index of the first package named `name`.
pub open spec fn find_pkg(pkgs: Seq<PackageV>, name: Seq<char>) -> Option<int>
    decreases pkgs.len(),
{
    if pkgs.len() == 0 {
        None
    } else {
        let r = find_pkg(pkgs.subrange(0, pkgs.len() - 1), name);
        if r is Some {
            r
        } else if pkgs[pkgs.len() - 1].name == name {
            Some(pkgs.len() - 1)
        } else {
            None
        }
    }
}

pub open spec fn is_proc_named(i: ItemV, name: Seq<char>) -> bool {
    i matches ItemV::Procedure(p) && p.name == name
}

/// The index of the first procedure named `name`.
pub open spec fn find_proc(items: Seq<ItemV>, name: Seq<char>) -> Option<int>
    decreases items.len(),
{
    if items.len() == 0 {
        None
    } else {
        let r = find_proc(items.subrange(0, items.len() - 1), name);
        if r is Some {
            r
        } else if is_proc_named(items[items.len() - 1], name) {
            Some(items.len() - 1)
        } else {
            None
        }
    }
}

/// The names of the procedures among `items`, in order.
pub open spec fn proc_names(items: Seq<ItemV>) -> Seq<Seq<char>>
    decreases items.len(),
{
    if items.len() == 0 {
        Seq::empty()
    } else {
        let r = proc_names(items.subrange(0, items.len() - 1));
        match items[items.len() - 1] {
            ItemV::Procedure(p) => r.push(p.name),
            _ => r,
        }
    }
}

/// The fresh name given to the `n`-th linked procedure.
pub open spec fn unique_name(n: nat) -> Seq<char> {
    "pkg_proc_"@ + nat_decimal(n)
}

/// The state of the linking loop: the call names still to look at (a stack),
/// the qualified names already linked, the linked copies, the renaming, and
/// the id counter.
pub ghost struct MergeState {
    pub pending: Seq<Seq<char>>,
    pub processed: Seq<Seq<char>>,
    pub merged: Seq<ProcedureDefV>,
    pub mapping: Seq<(Seq<char>, Seq<char>)>,
    pub next_id: nat,
}

/// The package procedures whose qualified names are not in `processed`.
pub open spec fn count_items(pname: Seq<char>, items: Seq<ItemV>, processed: Seq<Seq<char>>) -> nat
    decreases items.len(),
{
    if items.len() == 0 {
        0
    } else {
        count_items(pname, items.subrange(0, items.len() - 1), processed) + match items[items.len() - 1] {
            ItemV::Procedure(p) => if processed.contains(qualified(pname, p.name)) {
                0nat
            } else {
                1nat
            },
            _ => 0nat,
        }
    }
}

pub open spec fn count_pkgs(pkgs: Seq<PackageV>, processed: Seq<Seq<char>>) -> nat
    decreases pkgs.len(),
{
    if pkgs.len() == 0 {
        0
    } else {
        count_pkgs(pkgs.subrange(0, pkgs.len() - 1), processed) + count_items(
            pkgs[pkgs.len() - 1].name,
            pkgs[pkgs.len() - 1].items,
            processed,
        )
    }
}

/// One turn of the linking loop: the last pending name is taken; when it is
/// `pkg::proc`, not yet linked, and names a procedure of a package, a copy
/// with its package calls qualified is linked under the next fresh name, and
/// the calls in the copy become pending.
pub open spec fn merge_step(st: MergeState, pkgs: Seq<PackageV>) -> MergeState {
    let name = st.pending.last();
    let st1 = MergeState { pending: st.pending.drop_last(), ..st };
    match split_pkg_call(name) {
        Some((pkg, procn)) => if st1.processed.contains(name) {
            st1
        } else {
            match find_pkg(pkgs, pkg) {
                Some(pi) => match find_proc(pkgs[pi].items, procn) {
                    Some(j) => {
                        let p = pkgs[pi].items[j]->Procedure_0;
                        let id = unique_name(st.next_id + 1);
                        let body = q_stmts(p.body, pkg, proc_names(pkgs[pi].items));
                        MergeState {
                            pending: st1.pending + scan_stmts(body),
                            processed: st1.processed.push(name),
                            merged: st1.merged.push(ProcedureDefV { name: id, body, ..p }),
                            mapping: st1.mapping.push((name, id)),
                            next_id: st.next_id + 1,
                        }
                    },
                    None => st1,
                },
                None => st1,
            }
        },
        None => st1,
    }
}

proof fn lemma_count_items_mono(pname: Seq<char>, items: Seq<ItemV>, p: Seq<Seq<char>>, x: Seq<char>)
    ensures
        count_items(pname, items, p.push(x)) <= count_items(pname, items, p),
    decreases items.len(),
{
    if items.len() > 0 {
        lemma_count_items_mono(pname, items.subrange(0, items.len() - 1), p, x);
        if let ItemV::Procedure(q) = items[items.len() - 1] {
            if p.contains(qualified(pname, q.name)) {
                let k = choose|k: int| 0 <= k < p.len() && p[k] == qualified(pname, q.name);
                assert(p.push(x)[k] == qualified(pname, q.name));
            }
        }
    }
}

proof fn lemma_count_items_strict(pname: Seq<char>, items: Seq<ItemV>, p: Seq<Seq<char>>, j: int)
    requires
        0 <= j < items.len(),
        items[j] is Procedure,
        !p.contains(qualified(pname, items[j]->Procedure_0.name)),
    ensures
        count_items(pname, items, p.push(qualified(pname, items[j]->Procedure_0.name)))
            < count_items(pname, items, p),
    decreases items.len(),
{
    let x = qualified(pname, items[j]->Procedure_0.name);
    let init = items.subrange(0, items.len() - 1);
    assert(p.push(x)[p.len() as int] == x);
    if j < items.len() - 1 {
        assert(init[j] == items[j]);
        lemma_count_items_strict(pname, init, p, j);
        if let ItemV::Procedure(q) = items[items.len() - 1] {
            if p.contains(qualified(pname, q.name)) {
                let k = choose|k: int| 0 <= k < p.len() && p[k] == qualified(pname, q.name);
                assert(p.push(x)[k] == qualified(pname, q.name));
            }
        }
    } else {
        lemma_count_items_mono(pname, init, p, x);
    }
}

proof fn lemma_count_pkgs_mono(pkgs: Seq<PackageV>, p: Seq<Seq<char>>, x: Seq<char>)
    ensures
        count_pkgs(pkgs, p.push(x)) <= count_pkgs(pkgs, p),
    decreases pkgs.len(),
{
    if pkgs.len() > 0 {
        lemma_count_pkgs_mono(pkgs.subrange(0, pkgs.len() - 1), p, x);
        lemma_count_items_mono(pkgs[pkgs.len() - 1].name, pkgs[pkgs.len() - 1].items, p, x);
    }
}

proof fn lemma_count_pkgs_strict(pkgs: Seq<PackageV>, p: Seq<Seq<char>>, pi: int, j: int)
    requires
        0 <= pi < pkgs.len(),
        0 <= j < pkgs[pi].items.len(),
        pkgs[pi].items[j] is Procedure,
        !p.contains(qualified(pkgs[pi].name, pkgs[pi].items[j]->Procedure_0.name)),
    ensures
        count_pkgs(pkgs, p.push(qualified(pkgs[pi].name, pkgs[pi].items[j]->Procedure_0.name)))
            < count_pkgs(pkgs, p),
    decreases pkgs.len(),
{
    let x = qualified(pkgs[pi].name, pkgs[pi].items[j]->Procedure_0.name);
    let init = pkgs.subrange(0, pkgs.len() - 1);
    let last = pkgs[pkgs.len() - 1];
    if pi < pkgs.len() - 1 {
        assert(init[pi] == pkgs[pi]);
        lemma_count_pkgs_strict(init, p, pi, j);
        lemma_count_items_mono(last.name, last.items, p, x);
    } else {
        lemma_count_pkgs_mono(init, p, x);
        lemma_count_items_strict(last.name, last.items, p, j);
    }
}

proof fn lemma_split_joins(s: Seq<char>)
    requires
        split_pkg_call(s) is Some,
    ensures
        s == qualified(split_pkg_call(s).unwrap().0, split_pkg_call(s).unwrap().1),
{
    let i = first_sep_from(s, 0)->0;
    lemma_first_sep_found(s, 0);
    assert(s =~= qualified(s.subrange(0, i), s.subrange(i + 2, s.len() as int)));
}

proof fn lemma_first_sep_found(s: Seq<char>, i: int)
    requires
        first_sep_from(s, i) is Some,
    ensures
        i <= first_sep_from(s, i)->0,
        first_sep_from(s, i)->0 + 1 < s.len(),
        s[first_sep_from(s, i)->0] == ':',
        s[first_sep_from(s, i)->0 + 1] == ':',
    decreases s.len() - i,
{
    if !(i < 0 || i + 1 >= s.len()) && !(s[i] == ':' && s[i + 1] == ':') {
        lemma_first_sep_found(s, i + 1);
    }
}

proof fn lemma_find_pkg(pkgs: Seq<PackageV>, name: Seq<char>)
    ensures
        find_pkg(pkgs, name) matches Some(i) ==> 0 <= i < pkgs.len() && pkgs[i].name == name,
    decreases pkgs.len(),
{
    if pkgs.len() > 0 {
        lemma_find_pkg(pkgs.subrange(0, pkgs.len() - 1), name);
    }
}

proof fn lemma_find_proc(items: Seq<ItemV>, name: Seq<char>)
    ensures
        find_proc(items, name) matches Some(i) ==> 0 <= i < items.len() && is_proc_named(items[i], name),
    decreases items.len(),
{
    if items.len() > 0 {
        lemma_find_proc(items.subrange(0, items.len() - 1), name);
    }
}

/// A turn either links a new procedure, and then fewer package procedures
/// are left unlinked, or it only shortens the pending stack.
pub proof fn lemma_step_progress(st: MergeState, pkgs: Seq<PackageV>)
    requires
        st.pending.len() > 0,
    ensures
        ({
            let nx = merge_step(st, pkgs);
            ||| count_pkgs(pkgs, nx.processed) < count_pkgs(pkgs, st.processed)
                && nx.next_id == st.next_id + 1
            ||| count_pkgs(pkgs, nx.processed) == count_pkgs(pkgs, st.processed)
                && nx.pending.len() < st.pending.len() && nx.next_id == st.next_id
        }),
{
    let name = st.pending.last();
    if let Some((pkg, procn)) = split_pkg_call(name) {
        if !st.processed.contains(name) {
            lemma_find_pkg(pkgs, pkg);
            if let Some(pi) = find_pkg(pkgs, pkg) {
                lemma_find_proc(pkgs[pi].items, procn);
                if let Some(j) = find_proc(pkgs[pi].items, procn) {
                    lemma_split_joins(name);
                    lemma_count_pkgs_strict(pkgs, st.processed, pi, j);
                }
            }
        }
    }
}

/// The linking loop run until no name is pending.
pub open spec fn merge_run(st: MergeState, pkgs: Seq<PackageV>) -> MergeState
    decreases count_pkgs(pkgs, st.processed), st.pending.len(),
{
    if st.pending.len() == 0 {
        st
    } else {
        proof {
            lemma_step_progress(st, pkgs);
        }
        merge_run(merge_step(st, pkgs), pkgs)
    }
}

/// The names called by an item's body.
pub open spec fn scan_item(i: ItemV) -> Seq<Seq<char>> {
    match i {
        ItemV::Procedure(p) => scan_stmts(p.body),
        ItemV::Function(f) => scan_stmts(f.body),
        _ => Seq::empty(),
    }
}

pub open spec fn scan_items(items: Seq<ItemV>) -> Seq<Seq<char>>
    decreases items.len(),
{
    if items.len() == 0 {
        Seq::empty()
    } else {
        scan_items(items.subrange(0, items.len() - 1)) + scan_item(items[items.len() - 1])
    }
}

pub open spec fn rename_proc(p: ProcedureDefV, m: Seq<(Seq<char>, Seq<char>)>) -> ProcedureDefV {
    ProcedureDefV { body: r_stmts(p.body, m), ..p }
}

/// Procedure and handler bodies get their calls renamed.
pub open spec fn rename_item(i: ItemV, m: Seq<(Seq<char>, Seq<char>)>) -> ItemV {
    match i {
        ItemV::Procedure(p) => ItemV::Procedure(rename_proc(p, m)),
        ItemV::Function(f) => ItemV::Function(crate::ast::FunctionV { body: r_stmts(f.body, m), ..f }),
        _ => i,
    }
}

/// The items other than `use` declarations, in order.
pub open spec fn drop_uses(items: Seq<ItemV>) -> Seq<ItemV>
    decreases items.len(),
{
    if items.len() == 0 {
        Seq::empty()
    } else {
        let r = drop_uses(items.subrange(0, items.len() - 1));
        if items[items.len() - 1] is Use {
            r
        } else {
            r.push(items[items.len() - 1])
        }
    }
}

/// The initial state of the linking loop for a program's items.
pub open spec fn merge_start(items: Seq<ItemV>, id: nat) -> MergeState {
    MergeState {
        pending: scan_items(items),
        processed: Seq::empty(),
        merged: Seq::empty(),
        mapping: Seq::empty(),
        next_id: id,
    }
}

/// The program's items, renamed, followed by the linked procedures, renamed,
/// without `use` declarations; and the id counter after linking.
pub open spec fn link(items: Seq<ItemV>, pkgs: Seq<PackageV>, id: nat) -> (Seq<ItemV>, nat) {
    let st = merge_run(merge_start(items, id), pkgs);
    (
        drop_uses(
            items.map_values(|i: ItemV| rename_item(i, st.mapping)) + st.merged.map_values(
                |p: ProcedureDefV| ItemV::Procedure(rename_proc(p, st.mapping)),
            ),
        ),
        st.next_id,
    )
}

// ---------------------------------------------------------------------------
// The linking loop
// ---------------------------------------------------------------------------

/// The views of a list of packages.
pub open spec fn pkgs_view(p: Seq<Package>) -> Seq<PackageV> {
    p.map_values(|x: Package| x@)
}

/// Every procedure of every package is small enough to be framed.
pub open spec fn pkgs_fit(pkgs: Seq<PackageV>) -> bool {
    forall|i: int| 0 <= i < pkgs.len() ==> items_fit(#[trigger] pkgs[i].items)
}

pub open spec fn merged_view(m: Seq<ProcedureDef>) -> Seq<ProcedureDefV> {
    m.map_values(|p: ProcedureDef| p@)
}

pub open spec fn state_of(
    pending: Seq<String>,
    processed: Seq<String>,
    merged: Seq<ProcedureDef>,
    mapping: Seq<(String, String)>,
    id: u64,
) -> MergeState {
    MergeState {
        pending: strs_view(pending),
        processed: strs_view(processed),
        merged: merged_view(merged),
        mapping: pairs_view(mapping),
        next_id: id as nat,
    }
}

/// Advances the counter and returns the fresh name `pkg_proc_<counter>`.
pub fn get_unique_id(counter: &mut u64) -> (r: String)
    requires
        *old(counter) < u64::MAX,
    ensures
        *final(counter) == *old(counter) + 1,
        r@ == unique_name((*old(counter) + 1) as nat),
{
    *counter = *counter + 1;
    let mut s = lit("pkg_proc_");
    let d = u64_decimal(*counter);
    s.append(d.as_str());
    s
}

fn find_sep(cs: &Vec<char>, from: usize) -> (r: Option<usize>)
    ensures
        match r {
            Some(i) => first_sep_from(cs@, from as int) == Some(i as int),
            None => first_sep_from(cs@, from as int) is None,
        },
{
    let mut i: usize = from;
    while i < cs.len() && cs.len() - i >= 2
        invariant
            from <= i,
            first_sep_from(cs@, from as int) == first_sep_from(cs@, i as int),
        decreases cs.len() - i,
    {
        if cs[i] == ':' && cs[i + 1] == ':' {
            return Some(i);
        }
        i += 1;
    }
    None
}

pub(crate) fn chars_range(cs: &Vec<char>, lo: usize, hi: usize) -> (r: Vec<char>)
    requires
        lo <= hi <= cs.len(),
    ensures
        r@ == cs@.subrange(lo as int, hi as int),
{
    let mut out: Vec<char> = Vec::new();
    let mut i: usize = lo;
    while i < hi
        invariant
            lo <= i <= hi <= cs.len(),
            out@ == cs@.subrange(lo as int, i as int),
        decreases hi - i,
    {
        out.push(cs[i]);
        assert(out@ =~= cs@.subrange(lo as int, i + 1));
        i += 1;
    }
    out
}

pub(crate) fn string_of(cs: &Vec<char>) -> (r: String)
    ensures
        r@ == cs@,
{
    let mut s = String::new();
    let mut i: usize = 0;
    while i < cs.len()
        invariant
            i <= cs.len(),
            s@ == cs@.subrange(0, i as int),
        decreases cs.len() - i,
    {
        push_char(&mut s, cs[i]);
        assert(s@ =~= cs@.subrange(0, i + 1));
        i += 1;
    }
    assert(cs@.subrange(0, i as int) =~= cs@);
    s
}

/// Splits `pkg::proc` at its only `::`.
fn split_call(name: &String) -> (r: Option<(String, String)>)
    ensures
        match r {
            Some((a, b)) => split_pkg_call(name@) == Some((a@, b@)),
            None => split_pkg_call(name@) is None,
        },
{
    let cs = chars_of(name.as_str());
    match find_sep(&cs, 0) {
        Some(i) => {
            proof {
                lemma_first_sep_found(cs@, 0);
            }
            let rest = chars_range(&cs, i + 2, cs.len());
            match find_sep(&rest, 0) {
                Some(_) => None,
                None => {
                    let head = chars_range(&cs, 0, i);
                    Some((string_of(&head), string_of(&rest)))
                },
            }
        },
        None => None,
    }
}

fn find_package(packages: &Vec<Package>, name: &String) -> (r: Option<usize>)
    ensures
        match r {
            Some(i) => find_pkg(pkgs_view(packages@), name@) == Some(i as int) && i < packages.len(),
            None => find_pkg(pkgs_view(packages@), name@) is None,
        },
{
    let ghost pv = pkgs_view(packages@);
    let mut i: usize = 0;
    assert(pv.subrange(0, 0).len() == 0);
    while i < packages.len()
        invariant
            i <= packages.len(),
            pv == pkgs_view(packages@),
            find_pkg(pv.subrange(0, i as int), name@) is None,
        decreases packages.len() - i,
    {
        assert(pv.subrange(0, i + 1).subrange(0, i as int) =~= pv.subrange(0, i as int));
        if str_eq(packages[i].name.as_str(), name.as_str()) {
            proof {
                lemma_find_pkg_prefix(pv, i + 1, name@);
            }
            return Some(i);
        }
        i += 1;
    }
    assert(pv.subrange(0, i as int) =~= pv);
    None
}

proof fn lemma_find_pkg_prefix(m: Seq<PackageV>, i: int, k: Seq<char>)
    requires
        0 <= i <= m.len(),
        find_pkg(m.subrange(0, i), k) is Some,
    ensures
        find_pkg(m, k) == find_pkg(m.subrange(0, i), k),
    decreases m.len() - i,
{
    if i < m.len() {
        assert(m.subrange(0, i + 1).subrange(0, i) =~= m.subrange(0, i));
        lemma_find_pkg_prefix(m, i + 1, k);
    } else {
        assert(m.subrange(0, i) =~= m);
    }
}

proof fn lemma_find_proc_prefix(m: Seq<ItemV>, i: int, k: Seq<char>)
    requires
        0 <= i <= m.len(),
        find_proc(m.subrange(0, i), k) is Some,
    ensures
        find_proc(m, k) == find_proc(m.subrange(0, i), k),
    decreases m.len() - i,
{
    if i < m.len() {
        assert(m.subrange(0, i + 1).subrange(0, i) =~= m.subrange(0, i));
        lemma_find_proc_prefix(m, i + 1, k);
    } else {
        assert(m.subrange(0, i) =~= m);
    }
}

fn find_procedure(items: &Vec<Item>, name: &String) -> (r: Option<usize>)
    ensures
        match r {
            Some(i) => find_proc(items_view(items@), name@) == Some(i as int) && i < items.len(),
            None => find_proc(items_view(items@), name@) is None,
        },
{
    let ghost iv = items_view(items@);
    proof {
        lemma_items_view(items@);
    }
    let mut i: usize = 0;
    assert(iv.subrange(0, 0).len() == 0);
    while i < items.len()
        invariant
            i <= items.len(),
            iv == items_view(items@),
            iv.len() == items.len(),
            forall|k: int| 0 <= k < items.len() ==> #[trigger] iv[k] == items@[k]@,
            find_proc(iv.subrange(0, i as int), name@) is None,
        decreases items.len() - i,
    {
        assert(iv.subrange(0, i + 1).subrange(0, i as int) =~= iv.subrange(0, i as int));
        let hit = match &items[i] {
            Item::Procedure(p) => str_eq(p.name.as_str(), name.as_str()),
            _ => false,
        };
        if hit {
            proof {
                lemma_find_proc_prefix(iv, i + 1, name@);
            }
            return Some(i);
        }
        i += 1;
    }
    assert(iv.subrange(0, i as int) =~= iv);
    None
}

fn collect_proc_names(items: &Vec<Item>) -> (r: Vec<String>)
    ensures
        strs_view(r@) == proc_names(items_view(items@)),
{
    let ghost iv = items_view(items@);
    proof {
        lemma_items_view(items@);
    }
    let mut out: Vec<String> = Vec::new();
    assert(strs_view(out@) =~= proc_names(iv.subrange(0, 0)));
    let mut i: usize = 0;
    while i < items.len()
        invariant
            i <= items.len(),
            iv == items_view(items@),
            iv.len() == items.len(),
            forall|k: int| 0 <= k < items.len() ==> #[trigger] iv[k] == items@[k]@,
            strs_view(out@) == proc_names(iv.subrange(0, i as int)),
        decreases items.len() - i,
    {
        assert(iv.subrange(0, i + 1).subrange(0, i as int) =~= iv.subrange(0, i as int));
        match &items[i] {
            Item::Procedure(p) => push_name(&mut out, &p.name),
            _ => {},
        }
        i += 1;
    }
    assert(iv.subrange(0, i as int) =~= iv);
    out
}

fn scan_item_for_calls(item: &Item, calls: &mut Vec<String>)
    ensures
        strs_view(final(calls)@) == strs_view(old(calls)@) + scan_item(item@),
{
    match item {
        Item::Procedure(p) => scan_stmts_for_calls(&p.body, calls),
        Item::Function(f) => scan_stmts_for_calls(&f.body, calls),
        _ => {
            assert(strs_view(calls@) =~= strs_view(old(calls)@) + Seq::<Seq<char>>::empty());
        },
    }
}

fn rename_item_exec(it: &Item, m: &Vec<(String, String)>) -> (r: Item)
    ensures
        r@ == rename_item(it@, pairs_view(m@)),
{
    match it {
        Item::Procedure(p) => {
            let mut np = p.duplicate();
            np.body = rename_calls_in_stmts(&p.body, m);
            Item::Procedure(np)
        },
        Item::Function(f) => {
            let mut nf = f.duplicate();
            nf.body = rename_calls_in_stmts(&f.body, m);
            Item::Function(nf)
        },
        _ => it.duplicate(),
    }
}

proof fn lemma_rename_fits(i: ItemV, m: Seq<(Seq<char>, Seq<char>)>)
    ensures
        item_fits(i) ==> item_fits(rename_item(i, m)),
{
    match i {
        ItemV::Procedure(p) => lemma_r_stmts_size(p.body, m),
        ItemV::Function(f) => lemma_r_stmts_size(f.body, m),
        _ => {},
    }
}

/// Links the package procedures that `items` reach, renames their calls,
/// and drops `use` declarations.
pub fn link_packages(items: &Vec<Item>, packages: &Vec<Package>, next_id: &mut u64) -> (r: Vec<Item>)
    requires
        *old(next_id) + count_pkgs(pkgs_view(packages@), Seq::empty()) <= u64::MAX,
    ensures
        items_view(r@) == link(items_view(items@), pkgs_view(packages@), *old(next_id) as nat).0,
        *final(next_id) as nat == link(items_view(items@), pkgs_view(packages@), *old(next_id) as nat).1,
        items_fit(items_view(items@)) && pkgs_fit(pkgs_view(packages@)) ==> items_fit(items_view(r@)),
{
    let ghost pv = pkgs_view(packages@);
    let ghost iv = items_view(items@);
    let ghost id0 = *next_id as nat;
    proof {
        lemma_items_view(items@);
    }
    // the names called by the program, in order
    let mut pending: Vec<String> = Vec::new();
    let mut i: usize = 0;
    assert(strs_view(pending@) =~= scan_items(iv.subrange(0, 0)));
    while i < items.len()
        invariant
            i <= items.len(),
            iv == items_view(items@),
            iv.len() == items.len(),
            forall|k: int| 0 <= k < items.len() ==> #[trigger] iv[k] == items@[k]@,
            strs_view(pending@) == scan_items(iv.subrange(0, i as int)),
        decreases items.len() - i,
    {
        assert(iv.subrange(0, i + 1).subrange(0, i as int) =~= iv.subrange(0, i as int));
        scan_item_for_calls(&items[i], &mut pending);
        i += 1;
    }
    assert(iv.subrange(0, i as int) =~= iv);
    let mut processed: Vec<String> = Vec::new();
    let mut merged: Vec<ProcedureDef> = Vec::new();
    let mut mapping: Vec<(String, String)> = Vec::new();
    let ghost st0 = state_of(pending@, processed@, merged@, mapping@, *next_id);
    assert(st0.processed =~= Seq::<Seq<char>>::empty());
    assert(st0.merged =~= Seq::<ProcedureDefV>::empty());
    assert(st0.mapping =~= Seq::<(Seq<char>, Seq<char>)>::empty());
    assert(st0 == merge_start(iv, id0));
    while pending.len() > 0
        invariant
            pv == pkgs_view(packages@),
            merge_run(state_of(pending@, processed@, merged@, mapping@, *next_id), pv)
                == merge_run(merge_start(iv, id0), pv),
            *next_id + count_pkgs(pv, strs_view(processed@)) <= u64::MAX,
            pkgs_fit(pv) ==> forall|k: int| 0 <= k < merged@.len() ==> ss_size(#[trigger] merged@[k]@.body) < slot_limit(),
        decreases count_pkgs(pv, strs_view(processed@)), pending.len(),
    {
        let ghost cur = state_of(pending@, processed@, merged@, mapping@, *next_id);
        proof {
            lemma_step_progress(cur, pv);
            assert(strs_view(pending@).last() == pending@.last()@);
        }
        let call_name = pending.pop().unwrap();
        assert(strs_view(pending@) =~= cur.pending.drop_last());
        let ghost nx = merge_step(cur, pv);
        match split_call(&call_name) {
            Some((pkg_name, proc_name)) => {
                if !names_contain(&processed, &call_name) {
                    match find_package(packages, &pkg_name) {
                        Some(pi) => {
                            let pkg = &packages[pi];
                            assert(pv[pi as int] == pkg@);
                            match find_procedure(&pkg.items, &proc_name) {
                                Some(j) => {
                                    proof {
                                        lemma_find_proc(items_view(pkg.items@), proc_name@);
                                        lemma_items_view(pkg.items@);
                                    }
                                    match &pkg.items[j] {
                                        Item::Procedure(proc) => {
                                            assert(nx.next_id == cur.next_id + 1);
                                            push_name(&mut processed, &call_name);
                                            let unique = get_unique_id(next_id);
                                            mapping.push((call_name.clone(), unique.clone()));
                                            let names = collect_proc_names(&pkg.items);
                                            let body = qualify_calls(&proc.body, pkg_name.as_str(), &names);
                                            proof {
                                                lemma_q_stmts_size(stmts_view(proc.body@), pkg_name@, strs_view(names@));
                                                if pkgs_fit(pv) {
                                                    assert(items_fit(pv[pi as int].items));
                                                    assert(item_fits(items_view(pkg.items@)[j as int]));
                                                }
                                            }
                                            scan_stmts_for_calls(&body, &mut pending);
                                            let mut np = proc.duplicate();
                                            np.name = unique;
                                            np.body = body;
                                            merged.push(np);
                                            assert(pairs_view(mapping@) =~= cur.mapping.push((call_name@, unique_name(cur.next_id + 1))));
                                            assert(merged_view(merged@) =~= nx.merged);
                                            assert(strs_view(processed@) =~= nx.processed);
                                        },
                                        _ => {},
                                    }
                                },
                                None => {},
                            }
                        },
                        None => {},
                    }
                }
            },
            None => {},
        }
        assert(state_of(pending@, processed@, merged@, mapping@, *next_id) == nx);
    }
    let ghost fin = state_of(pending@, processed@, merged@, mapping@, *next_id);
    assert(fin == merge_run(merge_start(iv, id0), pv));
    // the renamed program, then the renamed linked procedures, without `use`
    let ghost m = pairs_view(mapping@);
    let ghost all = iv.map_values(|x: ItemV| rename_item(x, m)) + merged_view(merged@).map_values(
        |p: ProcedureDefV| ItemV::Procedure(rename_proc(p, m)),
    );
    let mut out: Vec<Item> = Vec::new();
    assert(items_view(out@) =~= drop_uses(all.subrange(0, 0)));
    let mut i: usize = 0;
    while i < items.len()
        invariant
            i <= items.len(),
            iv == items_view(items@),
            iv.len() == items.len(),
            forall|k: int| 0 <= k < items.len() ==> #[trigger] iv[k] == items@[k]@,
            m == pairs_view(mapping@),
            all == iv.map_values(|x: ItemV| rename_item(x, m)) + merged_view(merged@).map_values(
                |p: ProcedureDefV| ItemV::Procedure(rename_proc(p, m)),
            ),
            items_view(out@) == drop_uses(all.subrange(0, i as int)),
            items_fit(iv) && pkgs_fit(pv) ==> items_fit(items_view(out@)),
        decreases items.len() - i,
    {
        assert(all.subrange(0, i + 1).subrange(0, i as int) =~= all.subrange(0, i as int));
        assert(all[i as int] == rename_item(iv[i as int], m));
        let it = rename_item_exec(&items[i], &mapping);
        proof {
            lemma_rename_fits(iv[i as int], m);
        }
        let is_use = match &items[i] {
            Item::Use(_) => true,
            _ => false,
        };
        if !is_use {
            let ghost before = items_view(out@);
            push_item(&mut out, it);
            proof {
                if items_fit(iv) && pkgs_fit(pv) {
                    assert(item_fits(iv[i as int]));
                    assert forall|k: int| 0 <= k < items_view(out@).len() implies item_fits(#[trigger] items_view(out@)[k]) by {
                        if k < before.len() {
                            assert(items_view(out@)[k] == before[k]);
                        }
                    }
                }
            }
        }
        i += 1;
    }
    let mut j: usize = 0;
    while j < merged.len()
        invariant
            j <= merged.len(),
            iv.len() == items.len(),
            m == pairs_view(mapping@),
            all == iv.map_values(|x: ItemV| rename_item(x, m)) + merged_view(merged@).map_values(
                |p: ProcedureDefV| ItemV::Procedure(rename_proc(p, m)),
            ),
            items_view(out@) == drop_uses(all.subrange(0, items.len() + j)),
            items_fit(iv) && pkgs_fit(pv) ==> items_fit(items_view(out@)),
            pkgs_fit(pv) ==> forall|k: int| 0 <= k < merged@.len() ==> ss_size(#[trigger] merged@[k]@.body) < slot_limit(),
        decreases merged.len() - j,
    {
        let ghost k = items.len() + j;
        assert(all.subrange(0, k + 1).subrange(0, k) =~= all.subrange(0, k));
        assert(all[k] == ItemV::Procedure(rename_proc(merged@[j as int]@, m)));
        let mut np = merged[j].duplicate();
        np.body = rename_calls_in_stmts(&merged[j].body, &mapping);
        let ghost before = items_view(out@);
        proof {
            lemma_r_stmts_size(merged@[j as int]@.body, m);
        }
        push_item(&mut out, Item::Procedure(np));
        proof {
            if items_fit(iv) && pkgs_fit(pv) {
                assert forall|q: int| 0 <= q < items_view(out@).len() implies item_fits(#[trigger] items_view(out@)[q]) by {
                    if q < before.len() {
                        assert(items_view(out@)[q] == before[q]);
                    }
                }
            }
        }
        j += 1;
    }
    assert(all.subrange(0, items.len() + j) =~= all);
    out
}


// ---------------------------------------------------------------------------
// Linking resolves the package calls it looks at
// ---------------------------------------------------------------------------

/// Whether `n` is `pkg::proc` naming a procedure of one of the packages.
pub open spec fn resolves(pkgs: Seq<PackageV>, n: Seq<char>) -> bool {
    match split_pkg_call(n) {
        Some((pkg, procn)) => match find_pkg(pkgs, pkg) {
            Some(pi) => find_proc(pkgs[pi].items, procn) is Some,
            None => false,
        },
        None => false,
    }
}

/// The name a call has after the renaming `m`.
pub open spec fn renamed(m: Seq<(Seq<char>, Seq<char>)>, n: Seq<char>) -> Seq<char> {
    match pair_lookup(m, n) {
        Some(x) => x,
        None => n,
    }
}

proof fn lemma_no_sep(s: Seq<char>, i: int)
    requires
        forall|k: int| 0 <= k < s.len() ==> s[k] != ':',
    ensures
        first_sep_from(s, i) is None,
    decreases s.len() - i,
{
    if 0 <= i && i + 1 < s.len() {
        lemma_no_sep(s, i + 1);
    }
}

proof fn lemma_decimal_no_colon(n: nat)
    ensures
        forall|k: int| 0 <= k < nat_decimal(n).len() ==> nat_decimal(n)[k] != ':',
    decreases n,
{
    let d = nat_decimal(n);
    if n >= 10 {
        lemma_decimal_no_colon(n / 10);
        let c = digit_char((n % 10) as nat);
        assert(c != ':');
        assert forall|k: int| 0 <= k < d.len() implies d[k] != ':' by {
            if k < d.len() - 1 {
                assert(d[k] == nat_decimal(n / 10)[k]);
            }
        }
    } else {
        assert(digit_char(n) != ':');
    }
}

proof fn lemma_unique_name_unresolved(pkgs: Seq<PackageV>, k: nat)
    ensures
        !resolves(pkgs, unique_name(k)),
{
    reveal_strlit("pkg_proc_");
    lemma_decimal_no_colon(k);
    let u = unique_name(k);
    assert forall|q: int| 0 <= q < u.len() implies u[q] != ':' by {
        if q >= 9 {
            assert(u[q] == nat_decimal(k)[q - 9]);
        }
    }
    lemma_no_sep(u, 0);
}

proof fn lemma_lookup_value(m: Seq<(Seq<char>, Seq<char>)>, n: Seq<char>)
    requires
        pair_lookup(m, n) is Some,
    ensures
        exists|k: int| 0 <= k < m.len() && m[k].1 == pair_lookup(m, n)->0,
    decreases m.len(),
{
    let init = m.subrange(0, m.len() - 1);
    if pair_lookup(init, n) is Some {
        lemma_lookup_value(init, n);
        let k = choose|k: int| 0 <= k < init.len() && init[k].1 == pair_lookup(init, n)->0;
        assert(m[k] == init[k]);
    } else {
        assert(m[m.len() - 1].1 == pair_lookup(m, n)->0);
    }
}

proof fn lemma_lookup_push(m: Seq<(Seq<char>, Seq<char>)>, x: (Seq<char>, Seq<char>), n: Seq<char>)
    ensures
        pair_lookup(m, n) is Some ==> pair_lookup(m.push(x), n) == pair_lookup(m, n),
        n == x.0 ==> pair_lookup(m.push(x), n) is Some,
{
    assert(m.push(x).subrange(0, m.len() as int) =~= m);
}

proof fn lemma_scan_r_expr(e: ExprV, m: Seq<(Seq<char>, Seq<char>)>)
    ensures
        crate::transform::scan_expr(r_expr(e, m)) == crate::transform::scan_expr(e).map_values(
            |n: Seq<char>| renamed(m, n),
        ),
    decreases e,
{
    match e {
        ExprV::Call(n, args) => {
            lemma_scan_r_exprs(args, m);
            assert((seq![n] + crate::transform::scan_exprs(args)).map_values(
                |n: Seq<char>| renamed(m, n),
            ) =~= seq![renamed(m, n)] + crate::transform::scan_exprs(args).map_values(
                |n: Seq<char>| renamed(m, n),
            ));
        },
        ExprV::BinOp(l, _, r) => {
            lemma_scan_r_expr(*l, m);
            lemma_scan_r_expr(*r, m);
            assert((crate::transform::scan_expr(*l) + crate::transform::scan_expr(*r)).map_values(
                |n: Seq<char>| renamed(m, n),
            ) =~= crate::transform::scan_expr(*l).map_values(|n: Seq<char>| renamed(m, n))
                + crate::transform::scan_expr(*r).map_values(|n: Seq<char>| renamed(m, n)));
        },
        _ => {
            assert(Seq::<Seq<char>>::empty().map_values(|n: Seq<char>| renamed(m, n)) =~= Seq::<
                Seq<char>,
            >::empty());
        },
    }
}

proof fn lemma_scan_r_exprs(s: Seq<ExprV>, m: Seq<(Seq<char>, Seq<char>)>)
    ensures
        crate::transform::scan_exprs(r_exprs(s, m)) == crate::transform::scan_exprs(s).map_values(
            |n: Seq<char>| renamed(m, n),
        ),
    decreases s,
{
    if s.len() == 0 {
        assert(Seq::<Seq<char>>::empty().map_values(|n: Seq<char>| renamed(m, n)) =~= Seq::<
            Seq<char>,
        >::empty());
    } else {
        let init = s.subrange(0, s.len() - 1);
        lemma_scan_r_exprs(init, m);
        lemma_scan_r_expr(s[s.len() - 1], m);
        let rs = r_exprs(s, m);
        assert(rs.subrange(0, rs.len() - 1) =~= r_exprs(init, m));
        assert((crate::transform::scan_exprs(init) + crate::transform::scan_expr(
            s[s.len() - 1],
        )).map_values(|n: Seq<char>| renamed(m, n)) =~= crate::transform::scan_exprs(init).map_values(
            |n: Seq<char>| renamed(m, n),
        ) + crate::transform::scan_expr(s[s.len() - 1]).map_values(|n: Seq<char>| renamed(m, n)));
    }
}

proof fn lemma_map_add(a: Seq<Seq<char>>, b: Seq<Seq<char>>, m: Seq<(Seq<char>, Seq<char>)>)
    ensures
        (a + b).map_values(|n: Seq<char>| renamed(m, n)) == a.map_values(|n: Seq<char>| renamed(m, n))
            + b.map_values(|n: Seq<char>| renamed(m, n)),
{
    assert((a + b).map_values(|n: Seq<char>| renamed(m, n)) =~= a.map_values(
        |n: Seq<char>| renamed(m, n),
    ) + b.map_values(|n: Seq<char>| renamed(m, n)));
}

proof fn lemma_scan_r_stmt(st: StmtV, m: Seq<(Seq<char>, Seq<char>)>)
    ensures
        crate::transform::scan_stmt(r_stmt(st, m)) == crate::transform::scan_stmt(st).map_values(
            |n: Seq<char>| renamed(m, n),
        ),
    decreases st,
{
    let e0 = Seq::<Seq<char>>::empty();
    assert(e0.map_values(|n: Seq<char>| renamed(m, n)) =~= e0);
    match st {
        StmtV::Expr(e, _) => {
            lemma_scan_r_expr(e, m);
        },
        StmtV::Let(_, e, _) => {
            lemma_scan_r_expr(e, m);
        },
        StmtV::Assign(_, e, _) => {
            lemma_scan_r_expr(e, m);
        },
        StmtV::Return(oe, _) => {
            if let Some(e) = oe {
                lemma_scan_r_expr(e, m);
            }
        },
        StmtV::If(c, t, oe, _) => {
            lemma_scan_r_expr(c, m);
            lemma_scan_r_stmts(t, m);
            let tail = match oe {
                Some(b) => crate::transform::scan_stmts(b),
                None => e0,
            };
            if let Some(b) = oe {
                lemma_scan_r_stmts(b, m);
            }
            lemma_map_add(crate::transform::scan_expr(c), crate::transform::scan_stmts(t), m);
            lemma_map_add(
                crate::transform::scan_expr(c) + crate::transform::scan_stmts(t),
                tail,
                m,
            );
        },
        StmtV::Repeat(c, b, _) => {
            lemma_scan_r_expr(c, m);
            lemma_scan_r_stmts(b, m);
            lemma_map_add(crate::transform::scan_expr(c), crate::transform::scan_stmts(b), m);
        },
        StmtV::Forever(b, _) => {
            lemma_scan_r_stmts(b, m);
        },
        StmtV::Until(c, b, _) => {
            lemma_scan_r_expr(c, m);
            lemma_scan_r_stmts(b, m);
            lemma_map_add(crate::transform::scan_expr(c), crate::transform::scan_stmts(b), m);
        },
        _ => {},
    }
}

proof fn lemma_scan_r_stmts(s: Seq<StmtV>, m: Seq<(Seq<char>, Seq<char>)>)
    ensures
        scan_stmts(r_stmts(s, m)) == scan_stmts(s).map_values(|n: Seq<char>| renamed(m, n)),
    decreases s,
{
    if s.len() == 0 {
        assert(Seq::<Seq<char>>::empty().map_values(|n: Seq<char>| renamed(m, n)) =~= Seq::<
            Seq<char>,
        >::empty());
    } else {
        let init = s.subrange(0, s.len() - 1);
        lemma_scan_r_stmts(init, m);
        lemma_scan_r_stmt(s[s.len() - 1], m);
        let rs = r_stmts(s, m);
        assert(rs.subrange(0, rs.len() - 1) =~= r_stmts(init, m));
        lemma_map_add(scan_stmts(init), crate::transform::scan_stmt(s[s.len() - 1]), m);
    }
}

/// A name is not a resolvable package call, or it is still to be looked at,
/// or it has been linked.
pub open spec fn unresolved_or_seen(pkgs: Seq<PackageV>, st: MergeState, n: Seq<char>) -> bool {
    !resolves(pkgs, n) || st.pending.contains(n) || st.processed.contains(n)
}

/// What every turn of the linking loop keeps, for the names `seen` of the
/// program: each is settled or pending, and so is each name called by a
/// linked copy; each linked name has a new name, which is no package call.
pub open spec fn merge_inv(st: MergeState, pkgs: Seq<PackageV>, seen: Seq<Seq<char>>) -> bool {
    &&& forall|k: int| 0 <= k < seen.len() ==> unresolved_or_seen(pkgs, st, #[trigger] seen[k])
    &&& forall|k: int|
        0 <= k < st.processed.len() ==> pair_lookup(st.mapping, #[trigger] st.processed[k]) is Some
    &&& forall|k: int, j: int|
        0 <= k < st.merged.len() && 0 <= j < scan_stmts(st.merged[k].body).len()
            ==> unresolved_or_seen(pkgs, st, #[trigger] scan_stmts(st.merged[k].body)[j])
    &&& forall|k: int| 0 <= k < st.mapping.len() ==> !resolves(pkgs, #[trigger] st.mapping[k].1)
}

proof fn lemma_step_keeps(st: MergeState, pkgs: Seq<PackageV>, n: Seq<char>)
    requires
        st.pending.len() > 0,
        unresolved_or_seen(pkgs, st, n),
        !st.processed.contains(st.pending.last()) && resolves(pkgs, st.pending.last()) ==> (
            merge_step(st, pkgs).processed.contains(st.pending.last())),
        forall|x: Seq<char>| #[trigger] st.processed.contains(x) ==> merge_step(st, pkgs).processed.contains(x),
        forall|x: Seq<char>|
            st.pending.drop_last().contains(x) ==> #[trigger] merge_step(st, pkgs).pending.contains(x),
    ensures
        unresolved_or_seen(pkgs, merge_step(st, pkgs), n),
{
    if resolves(pkgs, n) && !st.processed.contains(n) {
        let i = choose|i: int| 0 <= i < st.pending.len() && st.pending[i] == n;
        if i < st.pending.len() - 1 {
            assert(st.pending.drop_last()[i] == n);
        }
    }
}

proof fn lemma_step_inv(st: MergeState, pkgs: Seq<PackageV>, seen: Seq<Seq<char>>)
    requires
        st.pending.len() > 0,
        merge_inv(st, pkgs, seen),
    ensures
        merge_inv(merge_step(st, pkgs), pkgs, seen),
{
    let name = st.pending.last();
    let nx = merge_step(st, pkgs);
    let rest = st.pending.drop_last();
    // what carries over in every case
    assert(forall|x: Seq<char>| rest.contains(x) ==> #[trigger] nx.pending.contains(x)) by {
        assert forall|x: Seq<char>| rest.contains(x) implies #[trigger] nx.pending.contains(x) by {
            let i = choose|i: int| 0 <= i < rest.len() && rest[i] == x;
            assert(nx.pending[i] == x);
        }
    }
    assert(forall|x: Seq<char>| #[trigger] st.processed.contains(x) ==> nx.processed.contains(x)) by {
        assert forall|x: Seq<char>| #[trigger] st.processed.contains(x) implies nx.processed.contains(x) by {
            let i = choose|i: int| 0 <= i < st.processed.len() && st.processed[i] == x;
            assert(nx.processed[i] == x);
        }
    }
    let linking = split_pkg_call(name) is Some && !st.processed.contains(name) && resolves(pkgs, name);
    if linking {
        let (pkg, procn) = split_pkg_call(name)->0;
        let pi = find_pkg(pkgs, pkg)->0;
        let j = find_proc(pkgs[pi].items, procn)->0;
        let p = pkgs[pi].items[j]->Procedure_0;
        let id = unique_name(st.next_id + 1);
        let body = q_stmts(p.body, pkg, proc_names(pkgs[pi].items));
        assert(nx.processed == st.processed.push(name));
        assert(nx.mapping == st.mapping.push((name, id)));
        assert(nx.merged == st.merged.push(ProcedureDefV { name: id, body, ..p }));
        assert(nx.pending == rest + scan_stmts(body));
        assert(nx.processed[st.processed.len() as int] == name);
        // linked names keep their new names
        assert forall|k: int| 0 <= k < nx.processed.len() implies pair_lookup(
            nx.mapping,
            #[trigger] nx.processed[k],
        ) is Some by {
            lemma_lookup_push(st.mapping, (name, id), nx.processed[k]);
            if k < st.processed.len() {
                assert(nx.processed[k] == st.processed[k]);
            }
        }
        assert forall|k: int| 0 <= k < nx.mapping.len() implies !resolves(pkgs, #[trigger] nx.mapping[k].1) by {
            if k < st.mapping.len() {
                assert(nx.mapping[k] == st.mapping[k]);
            } else {
                lemma_unique_name_unresolved(pkgs, st.next_id + 1);
            }
        }
        assert forall|k: int| 0 <= k < seen.len() implies unresolved_or_seen(pkgs, nx, #[trigger] seen[k]) by {
            lemma_step_keeps(st, pkgs, seen[k]);
        }
        assert forall|k: int, q: int|
            0 <= k < nx.merged.len() && 0 <= q < scan_stmts(nx.merged[k].body).len() implies unresolved_or_seen(
            pkgs,
            nx,
            #[trigger] scan_stmts(nx.merged[k].body)[q],
        ) by {
            if k < st.merged.len() {
                assert(nx.merged[k] == st.merged[k]);
                lemma_step_keeps(st, pkgs, scan_stmts(st.merged[k].body)[q]);
            } else {
                assert(nx.merged[k].body == body);
                let x = scan_stmts(body)[q];
                assert(nx.pending[rest.len() + q] == x);
            }
        }
    } else {
        assert(nx.processed == st.processed);
        assert(nx.mapping == st.mapping);
        assert(nx.merged == st.merged);
        assert(nx.pending == rest);
        assert(!st.processed.contains(name) && resolves(pkgs, name) ==> false);
        assert forall|k: int| 0 <= k < seen.len() implies unresolved_or_seen(pkgs, nx, #[trigger] seen[k]) by {
            lemma_step_keeps(st, pkgs, seen[k]);
        }
        assert forall|k: int, q: int|
            0 <= k < nx.merged.len() && 0 <= q < scan_stmts(nx.merged[k].body).len() implies unresolved_or_seen(
            pkgs,
            nx,
            #[trigger] scan_stmts(nx.merged[k].body)[q],
        ) by {
            lemma_step_keeps(st, pkgs, scan_stmts(st.merged[k].body)[q]);
        }
    }
}

proof fn lemma_run_inv(st: MergeState, pkgs: Seq<PackageV>, seen: Seq<Seq<char>>)
    requires
        merge_inv(st, pkgs, seen),
    ensures
        merge_inv(merge_run(st, pkgs), pkgs, seen),
        merge_run(st, pkgs).pending.len() == 0,
    decreases count_pkgs(pkgs, st.processed), st.pending.len(),
{
    if st.pending.len() > 0 {
        lemma_step_progress(st, pkgs);
        lemma_step_inv(st, pkgs, seen);
        lemma_run_inv(merge_step(st, pkgs), pkgs, seen);
    }
}

proof fn lemma_scan_items_member(items: Seq<ItemV>, q: int, j: int)
    requires
        0 <= q < items.len(),
        0 <= j < scan_item(items[q]).len(),
    ensures
        scan_items(items).contains(scan_item(items[q])[j]),
    decreases items.len(),
{
    let init = items.subrange(0, items.len() - 1);
    let x = scan_item(items[q])[j];
    if q < items.len() - 1 {
        assert(init[q] == items[q]);
        lemma_scan_items_member(init, q, j);
        let w = choose|w: int| 0 <= w < scan_items(init).len() && scan_items(init)[w] == x;
        assert(scan_items(items)[w] == x);
    } else {
        assert(scan_items(items)[scan_items(init).len() + j] == x);
    }
}

proof fn lemma_drop_uses_member(items: Seq<ItemV>, k: int)
    requires
        0 <= k < drop_uses(items).len(),
    ensures
        exists|q: int| 0 <= q < items.len() && drop_uses(items)[k] == items[q],
    decreases items.len(),
{
    let init = items.subrange(0, items.len() - 1);
    if k < drop_uses(init).len() {
        lemma_drop_uses_member(init, k);
        let q = choose|q: int| 0 <= q < init.len() && drop_uses(init)[k] == init[q];
        assert(items[q] == init[q]);
    } else {
        assert(drop_uses(items)[k] == items[items.len() - 1]);
    }
}

/// A renamed name is not a resolvable package call, when the name before
/// renaming is settled and every new name is no package call.
proof fn lemma_renamed_unresolved(st: MergeState, pkgs: Seq<PackageV>, seen: Seq<Seq<char>>, y: Seq<char>)
    requires
        merge_inv(st, pkgs, seen),
        st.pending.len() == 0,
        unresolved_or_seen(pkgs, st, y),
    ensures
        !resolves(pkgs, renamed(st.mapping, y)),
{
    if pair_lookup(st.mapping, y) is Some {
        lemma_lookup_value(st.mapping, y);
        let k = choose|k: int| 0 <= k < st.mapping.len() && st.mapping[k].1 == pair_lookup(st.mapping, y)->0;
        assert(!resolves(pkgs, st.mapping[k].1));
    } else if resolves(pkgs, y) {
        assert(!st.pending.contains(y));
        let i = choose|i: int| 0 <= i < st.processed.len() && st.processed[i] == y;
        assert(pair_lookup(st.mapping, st.processed[i]) is Some);
    }
}

/// Linking resolves every package call it looks at: in the linked items, no
/// procedure or script body calls a `pkg::proc` that names a procedure of one
/// of the packages (calls inside `match` arms and C-blocks are not looked at,
/// and stay as written).
pub proof fn law_package_calls_resolve(items: Seq<ItemV>, pkgs: Seq<PackageV>, id: nat)
    ensures
        forall|k: int, j: int|
            0 <= k < link(items, pkgs, id).0.len() && 0 <= j < scan_item(link(items, pkgs, id).0[k]).len()
                ==> !resolves(pkgs, #[trigger] scan_item(link(items, pkgs, id).0[k])[j]),
{
    let st0 = merge_start(items, id);
    let seen = scan_items(items);
    assert forall|k: int| 0 <= k < seen.len() implies unresolved_or_seen(pkgs, st0, #[trigger] seen[k]) by {
        assert(st0.pending[k] == seen[k]);
    }
    lemma_run_inv(st0, pkgs, seen);
    let st = merge_run(st0, pkgs);
    let m = st.mapping;
    let a = items.map_values(|i: ItemV| rename_item(i, m));
    let b = st.merged.map_values(|p: ProcedureDefV| ItemV::Procedure(rename_proc(p, m)));
    let out = link(items, pkgs, id).0;
    assert(out == drop_uses(a + b));
    assert forall|k: int, j: int|
        0 <= k < out.len() && 0 <= j < scan_item(out[k]).len() implies !resolves(
        pkgs,
        #[trigger] scan_item(out[k])[j],
    ) by {
        lemma_drop_uses_member(a + b, k);
        let q = choose|q: int| 0 <= q < (a + b).len() && drop_uses(a + b)[k] == (a + b)[q];
        if q < a.len() {
            let it = items[q];
            assert(out[k] == rename_item(it, m));
            match it {
                ItemV::Procedure(p) => {
                    lemma_scan_r_stmts(p.body, m);
                    lemma_scan_items_member(items, q, j);
                    let y = scan_stmts(p.body)[j];
                    let w = choose|w: int| 0 <= w < seen.len() && seen[w] == y;
                    assert(unresolved_or_seen(pkgs, st, seen[w]));
                    lemma_renamed_unresolved(st, pkgs, seen, y);
                },
                ItemV::Function(f) => {
                    lemma_scan_r_stmts(f.body, m);
                    lemma_scan_items_member(items, q, j);
                    let y = scan_stmts(f.body)[j];
                    let w = choose|w: int| 0 <= w < seen.len() && seen[w] == y;
                    assert(unresolved_or_seen(pkgs, st, seen[w]));
                    lemma_renamed_unresolved(st, pkgs, seen, y);
                },
                _ => {},
            }
        } else {
            let r = q - a.len();
            let p = st.merged[r];
            assert((a + b)[q] == b[r]);
            assert(out[k] == ItemV::Procedure(rename_proc(p, m)));
            lemma_scan_r_stmts(p.body, m);
            let y = scan_stmts(p.body)[j];
            assert(unresolved_or_seen(pkgs, st, scan_stmts(st.merged[r].body)[j]));
            lemma_renamed_unresolved(st, pkgs, seen, y);
        }
    }
}

} // verus!
