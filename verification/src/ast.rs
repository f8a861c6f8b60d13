//! The syntax tree of a Scrust program, and its mathematical model.
//!
//! Every executable type has a view (`@`) into a spec datatype of the same
//! shape in which strings are `Seq<char>` and vectors are `Seq`s.
use vstd::prelude::*;

verus! {

/// A number literal, kept as the decimal text it was written with
/// (`-?digits(.digits)?`); conversion to a machine float happens at the
/// program's edge.
#[derive(Debug)]
pub struct NumLit {
    pub text: String,
}

#[derive(Debug)]
pub struct Program {
    pub items: Vec<Item>,
}

#[derive(Debug)]
pub struct Package {
    pub name: String,
    pub extensions: Vec<String>,
    pub dependencies: Vec<String>,
    pub items: Vec<Item>,
}

#[derive(Debug)]
pub enum Item {
    Variable(VariableDecl),
    Costume(AssetDecl),
    Sound(AssetDecl),
    Function(Function),
    Procedure(ProcedureDef),
    Comment(String),
    BatchBreak,
    Stmt(Stmt),
    Package(Package),
    Use(String),
}

#[derive(Debug, Clone, Copy, PartialEq, Eq, Structural)]
pub enum Visibility {
    Public,
    Private,
    Default,
}

#[derive(Debug)]
pub struct ProcedureDef {
    pub name: String,
    pub params: Vec<Param>,
    pub body: Vec<Stmt>,
    pub return_type: Option<Type>,
    pub is_warp: bool,
    pub format: Option<(String, Vec<String>)>,
    pub comment: Option<String>,
}

#[derive(Debug)]
pub struct VariableDecl {
    pub name: String,
    pub ty: Type,
    pub init: Expr,
    pub visibility: Visibility,
    pub comment: Option<String>,
}

#[derive(Debug)]
pub struct AssetDecl {
    pub name: String,
    pub path: String,
    pub x: Option<NumLit>,
    pub y: Option<NumLit>,
}

#[derive(Debug)]
pub struct Function {
    pub name: String,
    pub attributes: Vec<Attribute>,
    pub params: Vec<Param>,
    pub body: Vec<Stmt>,
    pub is_warp: bool,
    pub comment: Option<String>,
}

#[derive(Debug)]
pub struct Attribute {
    pub name: String,
    pub args: Vec<Expr>,
}

#[derive(Debug)]
pub struct Param {
    pub name: String,
    pub ty: Type,
}

#[derive(Debug)]
pub enum Stmt {
    Assign(String, Expr, Option<String>),
    Let(String, Expr, Option<String>),
    Expr(Expr, Option<String>),
    If(Expr, Vec<Stmt>, Option<Vec<Stmt>>, Option<String>),
    Repeat(Expr, Vec<Stmt>, Option<String>),
    Forever(Vec<Stmt>, Option<String>),
    Until(Expr, Vec<Stmt>, Option<String>),
    Match(Expr, Vec<(Expr, Vec<Stmt>)>, Option<Vec<Stmt>>, Option<String>),
    Return(Option<Expr>, Option<String>),
    CBlock(String, Vec<Expr>, Vec<Stmt>, Option<String>),
    Comment(String),
}

#[derive(Debug)]
pub enum Expr {
    Number(NumLit),
    String(String),
    Bool(bool),
    Variable(String),
    Call(String, Vec<Expr>),
    ProcCall(String, Vec<Expr>),
    BinOp(Box<Expr>, Op, Box<Expr>),
    UnOp(UnOp, Box<Expr>),
    List(Vec<Expr>),
}

#[derive(Debug, Clone, Copy, PartialEq, Eq, Structural)]
pub enum UnOp {
    Not,
    Neg,
}

#[derive(Debug, Clone, Copy, PartialEq, Eq, Structural)]
pub enum Op {
    Add,
    Sub,
    Mul,
    Div,
    Mod,
    Eq,
    Gt,
    Lt,
    Ne,
    Ge,
    Le,
    And,
    Or,
}

#[derive(Debug, Clone, Copy, PartialEq, Eq, Structural)]
pub enum Type {
    Number,
    String,
    Boolean,
    List,
    Unknown,
}

// ---------------------------------------------------------------------------
// Mathematical model
// ---------------------------------------------------------------------------

pub ghost enum ExprV {
    Number(Seq<char>),
    String(Seq<char>),
    Bool(bool),
    Variable(Seq<char>),
    Call(Seq<char>, Seq<ExprV>),
    ProcCall(Seq<char>, Seq<ExprV>),
    BinOp(Box<ExprV>, Op, Box<ExprV>),
    UnOp(UnOp, Box<ExprV>),
    List(Seq<ExprV>),
}

pub ghost enum StmtV {
    Assign(Seq<char>, ExprV, Option<Seq<char>>),
    Let(Seq<char>, ExprV, Option<Seq<char>>),
    Expr(ExprV, Option<Seq<char>>),
    If(ExprV, Seq<StmtV>, Option<Seq<StmtV>>, Option<Seq<char>>),
    Repeat(ExprV, Seq<StmtV>, Option<Seq<char>>),
    Forever(Seq<StmtV>, Option<Seq<char>>),
    Until(ExprV, Seq<StmtV>, Option<Seq<char>>),
    Match(ExprV, Seq<(ExprV, Seq<StmtV>)>, Option<Seq<StmtV>>, Option<Seq<char>>),
    Return(Option<ExprV>, Option<Seq<char>>),
    CBlock(Seq<char>, Seq<ExprV>, Seq<StmtV>, Option<Seq<char>>),
    Comment(Seq<char>),
}

pub ghost struct ParamV {
    pub name: Seq<char>,
    pub ty: Type,
}

pub ghost struct AttributeV {
    pub name: Seq<char>,
    pub args: Seq<ExprV>,
}

pub ghost struct VariableDeclV {
    pub name: Seq<char>,
    pub ty: Type,
    pub init: ExprV,
    pub visibility: Visibility,
    pub comment: Option<Seq<char>>,
}

pub ghost struct AssetDeclV {
    pub name: Seq<char>,
    pub path: Seq<char>,
    pub x: Option<Seq<char>>,
    pub y: Option<Seq<char>>,
}

pub ghost struct FunctionV {
    pub name: Seq<char>,
    pub attributes: Seq<AttributeV>,
    pub params: Seq<ParamV>,
    pub body: Seq<StmtV>,
    pub is_warp: bool,
    pub comment: Option<Seq<char>>,
}

pub ghost struct ProcedureDefV {
    pub name: Seq<char>,
    pub params: Seq<ParamV>,
    pub body: Seq<StmtV>,
    pub return_type: Option<Type>,
    pub is_warp: bool,
    pub format: Option<(Seq<char>, Seq<Seq<char>>)>,
    pub comment: Option<Seq<char>>,
}

pub ghost struct PackageV {
    pub name: Seq<char>,
    pub extensions: Seq<Seq<char>>,
    pub dependencies: Seq<Seq<char>>,
    pub items: Seq<ItemV>,
}

pub ghost enum ItemV {
    Variable(VariableDeclV),
    Costume(AssetDeclV),
    Sound(AssetDeclV),
    Function(FunctionV),
    Procedure(ProcedureDefV),
    Comment(Seq<char>),
    BatchBreak,
    Stmt(StmtV),
    Package(PackageV),
    Use(Seq<char>),
}

pub ghost struct ProgramV {
    pub items: Seq<ItemV>,
}

/// The views of a sequence of strings.
pub open spec fn strs_view(s: Seq<String>) -> Seq<Seq<char>> {
    s.map_values(|x: String| x@)
}

pub open spec fn opt_str_view(s: Option<String>) -> Option<Seq<char>> {
    match s {
        Some(x) => Some(x@),
        None => None,
    }
}

pub open spec fn expr_view(e: Expr) -> ExprV
    decreases e,
{
    match e {
        Expr::Number(n) => ExprV::Number(n.text@),
        Expr::String(s) => ExprV::String(s@),
        Expr::Bool(b) => ExprV::Bool(b),
        Expr::Variable(s) => ExprV::Variable(s@),
        Expr::Call(n, args) => ExprV::Call(n@, exprs_view(args@)),
        Expr::ProcCall(n, args) => ExprV::ProcCall(n@, exprs_view(args@)),
        Expr::BinOp(l, op, r) => ExprV::BinOp(Box::new(expr_view(*l)), op, Box::new(expr_view(*r))),
        Expr::UnOp(op, x) => ExprV::UnOp(op, Box::new(expr_view(*x))),
        Expr::List(items) => ExprV::List(exprs_view(items@)),
    }
}

pub open spec fn exprs_view(s: Seq<Expr>) -> Seq<ExprV>
    decreases s,
{
    if s.len() == 0 {
        Seq::empty()
    } else {
        exprs_view(s.subrange(0, s.len() - 1)).push(expr_view(s[s.len() - 1]))
    }
}

pub open spec fn opt_expr_view(e: Option<Expr>) -> Option<ExprV> {
    match e {
        Some(x) => Some(expr_view(x)),
        None => None,
    }
}

pub open spec fn stmt_view(s: Stmt) -> StmtV
    decreases s,
{
    match s {
        Stmt::Assign(n, e, c) => StmtV::Assign(n@, expr_view(e), opt_str_view(c)),
        Stmt::Let(n, e, c) => StmtV::Let(n@, expr_view(e), opt_str_view(c)),
        Stmt::Expr(e, c) => StmtV::Expr(expr_view(e), opt_str_view(c)),
        Stmt::If(cond, t, e, c) => StmtV::If(
            expr_view(cond),
            stmts_view(t@),
            match e {
                Some(b) => Some(stmts_view(b@)),
                None => None,
            },
            opt_str_view(c),
        ),
        Stmt::Repeat(n, b, c) => StmtV::Repeat(expr_view(n), stmts_view(b@), opt_str_view(c)),
        Stmt::Forever(b, c) => StmtV::Forever(stmts_view(b@), opt_str_view(c)),
        Stmt::Until(cond, b, c) => StmtV::Until(expr_view(cond), stmts_view(b@), opt_str_view(c)),
        Stmt::Match(e, arms, d, c) => StmtV::Match(
            expr_view(e),
            arms_view(arms@),
            match d {
                Some(b) => Some(stmts_view(b@)),
                None => None,
            },
            opt_str_view(c),
        ),
        Stmt::Return(e, c) => StmtV::Return(
            match e {
                Some(x) => Some(expr_view(x)),
                None => None,
            },
            opt_str_view(c),
        ),
        Stmt::CBlock(n, args, b, c) => StmtV::CBlock(
            n@,
            exprs_view(args@),
            stmts_view(b@),
            opt_str_view(c),
        ),
        Stmt::Comment(t) => StmtV::Comment(t@),
    }
}

pub open spec fn stmts_view(s: Seq<Stmt>) -> Seq<StmtV>
    decreases s,
{
    if s.len() == 0 {
        Seq::empty()
    } else {
        stmts_view(s.subrange(0, s.len() - 1)).push(stmt_view(s[s.len() - 1]))
    }
}

pub open spec fn arms_view(s: Seq<(Expr, Vec<Stmt>)>) -> Seq<(ExprV, Seq<StmtV>)>
    decreases s,
{
    if s.len() == 0 {
        Seq::empty()
    } else {
        arms_view(s.subrange(0, s.len() - 1)).push(
            (expr_view(s[s.len() - 1].0), stmts_view(s[s.len() - 1].1@)),
        )
    }
}


pub open spec fn params_view(s: Seq<Param>) -> Seq<ParamV> {
    s.map_values(|p: Param| ParamV { name: p.name@, ty: p.ty })
}

pub open spec fn attrs_view(s: Seq<Attribute>) -> Seq<AttributeV> {
    s.map_values(|a: Attribute| AttributeV { name: a.name@, args: exprs_view(a.args@) })
}

pub open spec fn num_view(n: Option<NumLit>) -> Option<Seq<char>> {
    match n {
        Some(x) => Some(x.text@),
        None => None,
    }
}

pub open spec fn asset_view(a: AssetDecl) -> AssetDeclV {
    AssetDeclV { name: a.name@, path: a.path@, x: num_view(a.x), y: num_view(a.y) }
}

pub open spec fn var_view(v: VariableDecl) -> VariableDeclV {
    VariableDeclV {
        name: v.name@,
        ty: v.ty,
        init: expr_view(v.init),
        visibility: v.visibility,
        comment: opt_str_view(v.comment),
    }
}

pub open spec fn func_view(f: Function) -> FunctionV {
    FunctionV {
        name: f.name@,
        attributes: attrs_view(f.attributes@),
        params: params_view(f.params@),
        body: stmts_view(f.body@),
        is_warp: f.is_warp,
        comment: opt_str_view(f.comment),
    }
}

pub open spec fn format_view(f: Option<(String, Vec<String>)>) -> Option<(Seq<char>, Seq<Seq<char>>)> {
    match f {
        Some(x) => Some((x.0@, strs_view(x.1@))),
        None => None,
    }
}

pub open spec fn proc_view(p: ProcedureDef) -> ProcedureDefV {
    ProcedureDefV {
        name: p.name@,
        params: params_view(p.params@),
        body: stmts_view(p.body@),
        return_type: p.return_type,
        is_warp: p.is_warp,
        format: format_view(p.format),
        comment: opt_str_view(p.comment),
    }
}

pub open spec fn item_view(i: Item) -> ItemV
    decreases i,
{
    match i {
        Item::Variable(v) => ItemV::Variable(var_view(v)),
        Item::Costume(a) => ItemV::Costume(asset_view(a)),
        Item::Sound(a) => ItemV::Sound(asset_view(a)),
        Item::Function(f) => ItemV::Function(func_view(f)),
        Item::Procedure(p) => ItemV::Procedure(proc_view(p)),
        Item::Comment(c) => ItemV::Comment(c@),
        Item::BatchBreak => ItemV::BatchBreak,
        Item::Stmt(s) => ItemV::Stmt(stmt_view(s)),
        Item::Package(p) => ItemV::Package(
            PackageV {
                name: p.name@,
                extensions: strs_view(p.extensions@),
                dependencies: strs_view(p.dependencies@),
                items: items_view(p.items@),
            },
        ),
        Item::Use(u) => ItemV::Use(u@),
    }
}

pub open spec fn items_view(s: Seq<Item>) -> Seq<ItemV>
    decreases s,
{
    if s.len() == 0 {
        Seq::empty()
    } else {
        items_view(s.subrange(0, s.len() - 1)).push(item_view(s[s.len() - 1]))
    }
}

pub proof fn lemma_exprs_view(s: Seq<Expr>)
    ensures
        exprs_view(s).len() == s.len(),
        forall|i: int| 0 <= i < s.len() ==> #[trigger] exprs_view(s)[i] == expr_view(s[i]),
    decreases s.len(),
{
    if s.len() > 0 {
        lemma_exprs_view(s.subrange(0, s.len() - 1));
    }
}

pub proof fn lemma_stmts_view(s: Seq<Stmt>)
    ensures
        stmts_view(s).len() == s.len(),
        forall|i: int| 0 <= i < s.len() ==> #[trigger] stmts_view(s)[i] == stmt_view(s[i]),
    decreases s.len(),
{
    if s.len() > 0 {
        lemma_stmts_view(s.subrange(0, s.len() - 1));
    }
}

pub proof fn lemma_arms_view(s: Seq<(Expr, Vec<Stmt>)>)
    ensures
        arms_view(s).len() == s.len(),
        forall|i: int|
            0 <= i < s.len() ==> #[trigger] arms_view(s)[i] == (expr_view(s[i].0), stmts_view(
                s[i].1@,
            )),
    decreases s.len(),
{
    if s.len() > 0 {
        lemma_arms_view(s.subrange(0, s.len() - 1));
    }
}

pub proof fn lemma_items_view(s: Seq<Item>)
    ensures
        items_view(s).len() == s.len(),
        forall|i: int| 0 <= i < s.len() ==> #[trigger] items_view(s)[i] == item_view(s[i]),
    decreases s.len(),
{
    if s.len() > 0 {
        lemma_items_view(s.subrange(0, s.len() - 1));
    }
}

pub proof fn lemma_exprs_view_push(s: Seq<Expr>, x: Expr)
    ensures
        exprs_view(s.push(x)) == exprs_view(s).push(expr_view(x)),
{
    assert(s.push(x).subrange(0, s.len() as int) =~= s);
}

pub proof fn lemma_stmts_view_push(s: Seq<Stmt>, x: Stmt)
    ensures
        stmts_view(s.push(x)) == stmts_view(s).push(stmt_view(x)),
{
    assert(s.push(x).subrange(0, s.len() as int) =~= s);
}

pub proof fn lemma_arms_view_push(s: Seq<(Expr, Vec<Stmt>)>, x: (Expr, Vec<Stmt>))
    ensures
        arms_view(s.push(x)) == arms_view(s).push((expr_view(x.0), stmts_view(x.1@))),
{
    assert(s.push(x).subrange(0, s.len() as int) =~= s);
}

pub proof fn lemma_items_view_push(s: Seq<Item>, x: Item)
    ensures
        items_view(s.push(x)) == items_view(s).push(item_view(x)),
{
    assert(s.push(x).subrange(0, s.len() as int) =~= s);
}

pub proof fn lemma_stmts_view_add(a: Seq<Stmt>, b: Seq<Stmt>)
    ensures
        stmts_view(a + b) == stmts_view(a) + stmts_view(b),
    decreases b.len(),
{
    if b.len() == 0 {
        assert(a + b =~= a);
        assert(stmts_view(b) =~= Seq::<StmtV>::empty());
        assert(stmts_view(a) + stmts_view(b) =~= stmts_view(a));
    } else {
        let b1 = b.subrange(0, b.len() - 1);
        lemma_stmts_view_add(a, b1);
        assert((a + b).subrange(0, (a + b).len() - 1) =~= a + b1);
        assert(stmts_view(a) + stmts_view(b) =~= (stmts_view(a) + stmts_view(b1)).push(
            stmt_view(b[b.len() - 1]),
        ));
    }
}

pub proof fn lemma_items_view_add(a: Seq<Item>, b: Seq<Item>)
    ensures
        items_view(a + b) == items_view(a) + items_view(b),
    decreases b.len(),
{
    if b.len() == 0 {
        assert(a + b =~= a);
        assert(items_view(b) =~= Seq::<ItemV>::empty());
        assert(items_view(a) + items_view(b) =~= items_view(a));
    } else {
        let b1 = b.subrange(0, b.len() - 1);
        lemma_items_view_add(a, b1);
        assert((a + b).subrange(0, (a + b).len() - 1) =~= a + b1);
        assert(items_view(a) + items_view(b) =~= (items_view(a) + items_view(b1)).push(
            item_view(b[b.len() - 1]),
        ));
    }
}

// ---------------------------------------------------------------------------
// Copies with the same view
// ---------------------------------------------------------------------------

pub fn copy_string_opt(s: &Option<String>) -> (r: Option<String>)
    ensures
        opt_str_view(r) == opt_str_view(*s),
{
    match s {
        Some(x) => Some(x.clone()),
        None => None,
    }
}

pub fn copy_strings(v: &Vec<String>) -> (r: Vec<String>)
    ensures
        strs_view(r@) == strs_view(v@),
{
    let mut out: Vec<String> = Vec::new();
    let mut i: usize = 0;
    while i < v.len()
        invariant
            i <= v.len(),
            out@.len() == i,
            forall|k: int| 0 <= k < i ==> #[trigger] out@[k]@ == v@[k]@,
        decreases v.len() - i,
    {
        out.push(v[i].clone());
        i += 1;
    }
    assert(strs_view(out@) =~= strs_view(v@));
    out
}

pub fn copy_num(n: &NumLit) -> (r: NumLit)
    ensures
        r.text@ == n.text@,
{
    NumLit { text: n.text.clone() }
}

impl Expr {
    /// A copy of the expression with the same view.
    pub fn duplicate(&self) -> (r: Expr)
        ensures
            r@ == self@,
        decreases self, 1nat,
    {
        match self {
            Expr::Number(n) => Expr::Number(copy_num(n)),
            Expr::String(s) => Expr::String(s.clone()),
            Expr::Bool(b) => Expr::Bool(*b),
            Expr::Variable(s) => Expr::Variable(s.clone()),
            Expr::Call(n, args) => Expr::Call(n.clone(), Expr::duplicate_all(args)),
            Expr::ProcCall(n, args) => Expr::ProcCall(n.clone(), Expr::duplicate_all(args)),
            Expr::BinOp(l, op, r) => Expr::BinOp(Box::new(l.duplicate()), *op, Box::new(r.duplicate())),
            Expr::UnOp(op, x) => Expr::UnOp(*op, Box::new(x.duplicate())),
            Expr::List(items) => Expr::List(Expr::duplicate_all(items)),
        }
    }

    pub fn duplicate_all(v: &Vec<Expr>) -> (r: Vec<Expr>)
        ensures
            exprs_view(r@) == exprs_view(v@),
        decreases v, 0nat,
    {
        let mut out: Vec<Expr> = Vec::new();
        let mut i: usize = 0;
        while i < v.len()
            invariant
                i <= v.len(),
                exprs_view(out@) == exprs_view(v@.subrange(0, i as int)),
            decreases v.len() - i,
        {
            let x = v[i].duplicate();
            proof {
                lemma_exprs_view_push(out@, x);
                lemma_exprs_view_push(v@.subrange(0, i as int), v@[i as int]);
                assert(v@.subrange(0, i as int).push(v@[i as int]) =~= v@.subrange(0, i + 1));
            }
            out.push(x);
            i += 1;
        }
        assert(v@.subrange(0, i as int) =~= v@);
        out
    }
}

impl Stmt {
    /// A copy of the statement with the same view.
    pub fn duplicate(&self) -> (r: Stmt)
        ensures
            r@ == self@,
        decreases self, 1nat,
    {
        match self {
            Stmt::Assign(n, e, c) => Stmt::Assign(n.clone(), e.duplicate(), copy_string_opt(c)),
            Stmt::Let(n, e, c) => Stmt::Let(n.clone(), e.duplicate(), copy_string_opt(c)),
            Stmt::Expr(e, c) => Stmt::Expr(e.duplicate(), copy_string_opt(c)),
            Stmt::If(cond, t, e, c) => {
                let e2 = match e {
                    Some(b) => Some(Stmt::duplicate_all(b)),
                    None => None,
                };
                Stmt::If(cond.duplicate(), Stmt::duplicate_all(t), e2, copy_string_opt(c))
            },
            Stmt::Repeat(n, b, c) => Stmt::Repeat(n.duplicate(), Stmt::duplicate_all(b), copy_string_opt(c)),
            Stmt::Forever(b, c) => Stmt::Forever(Stmt::duplicate_all(b), copy_string_opt(c)),
            Stmt::Until(n, b, c) => Stmt::Until(n.duplicate(), Stmt::duplicate_all(b), copy_string_opt(c)),
            Stmt::Match(e, arms, d, c) => {
                let d2 = match d {
                    Some(b) => Some(Stmt::duplicate_all(b)),
                    None => None,
                };
                Stmt::Match(e.duplicate(), Stmt::duplicate_arms(arms), d2, copy_string_opt(c))
            },
            Stmt::Return(e, c) => {
                let e2 = match e {
                    Some(x) => Some(x.duplicate()),
                    None => None,
                };
                Stmt::Return(e2, copy_string_opt(c))
            },
            Stmt::CBlock(n, args, b, c) => Stmt::CBlock(
                n.clone(),
                Expr::duplicate_all(args),
                Stmt::duplicate_all(b),
                copy_string_opt(c),
            ),
            Stmt::Comment(t) => Stmt::Comment(t.clone()),
        }
    }

    pub fn duplicate_all(v: &Vec<Stmt>) -> (r: Vec<Stmt>)
        ensures
            stmts_view(r@) == stmts_view(v@),
        decreases v, 0nat,
    {
        let mut out: Vec<Stmt> = Vec::new();
        let mut i: usize = 0;
        while i < v.len()
            invariant
                i <= v.len(),
                stmts_view(out@) == stmts_view(v@.subrange(0, i as int)),
            decreases v.len() - i,
        {
            let x = v[i].duplicate();
            proof {
                lemma_stmts_view_push(out@, x);
                lemma_stmts_view_push(v@.subrange(0, i as int), v@[i as int]);
                assert(v@.subrange(0, i as int).push(v@[i as int]) =~= v@.subrange(0, i + 1));
            }
            out.push(x);
            i += 1;
        }
        assert(v@.subrange(0, i as int) =~= v@);
        out
    }

    pub fn duplicate_arms(v: &Vec<(Expr, Vec<Stmt>)>) -> (r: Vec<(Expr, Vec<Stmt>)>)
        ensures
            arms_view(r@) == arms_view(v@),
        decreases v, 0nat,
    {
        let mut out: Vec<(Expr, Vec<Stmt>)> = Vec::new();
        let mut i: usize = 0;
        while i < v.len()
            invariant
                i <= v.len(),
                arms_view(out@) == arms_view(v@.subrange(0, i as int)),
            decreases v.len() - i,
        {
            let (p, b) = &v[i];
            let x = (p.duplicate(), Stmt::duplicate_all(b));
            proof {
                lemma_arms_view_push(out@, x);
                lemma_arms_view_push(v@.subrange(0, i as int), v@[i as int]);
                assert(v@.subrange(0, i as int).push(v@[i as int]) =~= v@.subrange(0, i + 1));
            }
            out.push(x);
            i += 1;
        }
        assert(v@.subrange(0, i as int) =~= v@);
        out
    }
}

pub fn copy_params(v: &Vec<Param>) -> (r: Vec<Param>)
    ensures
        params_view(r@) == params_view(v@),
{
    let mut out: Vec<Param> = Vec::new();
    let mut i: usize = 0;
    while i < v.len()
        invariant
            i <= v.len(),
            out@.len() == i,
            forall|k: int|
                0 <= k < i ==> (#[trigger] out@[k]).name@ == v@[k].name@ && out@[k].ty == v@[k].ty,
        decreases v.len() - i,
    {
        out.push(Param { name: v[i].name.clone(), ty: v[i].ty });
        i += 1;
    }
    assert(params_view(out@) =~= params_view(v@));
    out
}

pub fn copy_attrs(v: &Vec<Attribute>) -> (r: Vec<Attribute>)
    ensures
        attrs_view(r@) == attrs_view(v@),
{
    let mut out: Vec<Attribute> = Vec::new();
    let mut i: usize = 0;
    while i < v.len()
        invariant
            i <= v.len(),
            out@.len() == i,
            forall|k: int|
                0 <= k < i ==> (#[trigger] out@[k]).name@ == v@[k].name@ && exprs_view(out@[k].args@)
                    == exprs_view(v@[k].args@),
        decreases v.len() - i,
    {
        out.push(Attribute { name: v[i].name.clone(), args: Expr::duplicate_all(&v[i].args) });
        i += 1;
    }
    assert(attrs_view(out@) =~= attrs_view(v@));
    out
}

impl ProcedureDef {
    pub fn duplicate(&self) -> (r: ProcedureDef)
        ensures
            r@ == self@,
    {
        let format = match &self.format {
            Some((a, b)) => Some((a.clone(), copy_strings(b))),
            None => None,
        };
        ProcedureDef {
            name: self.name.clone(),
            params: copy_params(&self.params),
            body: Stmt::duplicate_all(&self.body),
            return_type: self.return_type,
            is_warp: self.is_warp,
            format,
            comment: copy_string_opt(&self.comment),
        }
    }
}

impl Function {
    pub fn duplicate(&self) -> (r: Function)
        ensures
            r@ == self@,
    {
        Function {
            name: self.name.clone(),
            attributes: copy_attrs(&self.attributes),
            params: copy_params(&self.params),
            body: Stmt::duplicate_all(&self.body),
            is_warp: self.is_warp,
            comment: copy_string_opt(&self.comment),
        }
    }
}

impl Item {
    pub fn duplicate(&self) -> (r: Item)
        ensures
            r@ == self@,
        decreases self, 1nat,
    {
        match self {
            Item::Variable(v) => Item::Variable(
                VariableDecl {
                    name: v.name.clone(),
                    ty: v.ty,
                    init: v.init.duplicate(),
                    visibility: v.visibility,
                    comment: copy_string_opt(&v.comment),
                },
            ),
            Item::Costume(a) => Item::Costume(copy_asset(a)),
            Item::Sound(a) => Item::Sound(copy_asset(a)),
            Item::Function(f) => Item::Function(f.duplicate()),
            Item::Procedure(p) => Item::Procedure(p.duplicate()),
            Item::Comment(c) => Item::Comment(c.clone()),
            Item::BatchBreak => Item::BatchBreak,
            Item::Stmt(s) => Item::Stmt(s.duplicate()),
            Item::Package(p) => Item::Package(
                Package {
                    name: p.name.clone(),
                    extensions: copy_strings(&p.extensions),
                    dependencies: copy_strings(&p.dependencies),
                    items: Item::duplicate_all(&p.items),
                },
            ),
            Item::Use(u) => Item::Use(u.clone()),
        }
    }

    pub fn duplicate_all(v: &Vec<Item>) -> (r: Vec<Item>)
        ensures
            items_view(r@) == items_view(v@),
        decreases v, 0nat,
    {
        let mut out: Vec<Item> = Vec::new();
        let mut i: usize = 0;
        while i < v.len()
            invariant
                i <= v.len(),
                items_view(out@) == items_view(v@.subrange(0, i as int)),
            decreases v.len() - i,
        {
            let x = v[i].duplicate();
            proof {
                lemma_items_view_push(out@, x);
                lemma_items_view_push(v@.subrange(0, i as int), v@[i as int]);
                assert(v@.subrange(0, i as int).push(v@[i as int]) =~= v@.subrange(0, i + 1));
            }
            out.push(x);
            i += 1;
        }
        assert(v@.subrange(0, i as int) =~= v@);
        out
    }
}

pub fn copy_asset(a: &AssetDecl) -> (r: AssetDecl)
    ensures
        asset_view(r) == asset_view(*a),
{
    let x = match &a.x {
        Some(n) => Some(copy_num(n)),
        None => None,
    };
    let y = match &a.y {
        Some(n) => Some(copy_num(n)),
        None => None,
    };
    AssetDecl { name: a.name.clone(), path: a.path.clone(), x, y }
}

impl View for Expr {
    type V = ExprV;

    open spec fn view(&self) -> ExprV {
        expr_view(*self)
    }
}

impl View for Stmt {
    type V = StmtV;

    open spec fn view(&self) -> StmtV {
        stmt_view(*self)
    }
}

impl View for Item {
    type V = ItemV;

    open spec fn view(&self) -> ItemV {
        item_view(*self)
    }
}

impl View for Program {
    type V = ProgramV;

    open spec fn view(&self) -> ProgramV {
        ProgramV { items: items_view(self.items@) }
    }
}

impl View for Package {
    type V = PackageV;

    open spec fn view(&self) -> PackageV {
        PackageV {
            name: self.name@,
            extensions: strs_view(self.extensions@),
            dependencies: strs_view(self.dependencies@),
            items: items_view(self.items@),
        }
    }
}

impl View for ProcedureDef {
    type V = ProcedureDefV;

    open spec fn view(&self) -> ProcedureDefV {
        proc_view(*self)
    }
}

impl View for Function {
    type V = FunctionV;

    open spec fn view(&self) -> FunctionV {
        func_view(*self)
    }
}

} // verus!
