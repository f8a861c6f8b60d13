//! Renders a syntax tree back as Scrust-like source text.
use crate::ast::{
    arms_view, attrs_view, expr_view, exprs_view, item_view, items_view, lemma_arms_view,
    lemma_exprs_view, lemma_items_view, lemma_stmts_view, params_view, stmt_view, stmts_view,
    AttributeV, Expr, ExprV, Function, FunctionV, Item, ItemV, Op, ParamV, ProcedureDef,
    ProcedureDefV, Program, Stmt, StmtV, Type, Visibility,
};
use crate::text::{canonical_number, debug_quote, debug_quoted, lemma_add_assoc, number_display};
use vstd::prelude::*;

verus! {

broadcast use lemma_add_assoc;

// ---------------------------------------------------------------------------
// What the generator writes
// ---------------------------------------------------------------------------

/// `n` levels of indentation, four spaces each.
pub open spec fn indent_text(n: nat) -> Seq<char>
    decreases n,
{
    if n == 0 {
        Seq::empty()
    } else {
        indent_text((n - 1) as nat) + "    "@
    }
}

pub open spec fn type_text(t: Type) -> Seq<char> {
    match t {
        Type::Number => "number"@,
        Type::String => "string"@,
        Type::Boolean => "boolean"@,
        Type::List => "list"@,
        Type::Unknown => "unknown"@,
    }
}

pub open spec fn op_text(op: Op) -> Seq<char> {
    match op {
        Op::Add => "+"@,
        Op::Sub => "-"@,
        Op::Mul => "*"@,
        Op::Div => "/"@,
        Op::Mod => "%"@,
        Op::Eq => "=="@,
        Op::Gt => ">"@,
        Op::Lt => "<"@,
        Op::And => "&&"@,
        Op::Or => "||"@,
        Op::Ne => "!="@,
        Op::Ge => ">="@,
        Op::Le => "<="@,
    }
}

/// An expression as source text; operators are written without parentheses.
pub open spec fn gen_expr(e: ExprV) -> Seq<char>
    decreases e,
{
    match e {
        ExprV::Number(t) => canonical_number(t),
        ExprV::String(s) => debug_quoted(s),
        ExprV::Bool(b) => if b {
            "true"@
        } else {
            "false"@
        },
        ExprV::Variable(v) => v,
        ExprV::BinOp(l, op, r) => gen_expr(*l) + " "@ + op_text(op) + " "@ + gen_expr(*r),
        ExprV::Call(n, args) => n + "("@ + gen_args(args) + ")"@,
        ExprV::List(items) => "["@ + gen_args(items) + "]"@,
        _ => "/* unknown expr */"@,
    }
}

/// Expressions separated by `", "`.
pub open spec fn gen_args(s: Seq<ExprV>) -> Seq<char>
    decreases s,
{
    if s.len() == 0 {
        Seq::empty()
    } else {
        gen_args(s.subrange(0, s.len() - 1)) + (if s.len() > 1 {
            ", "@
        } else {
            Seq::empty()
        }) + gen_expr(s[s.len() - 1])
    }
}

/// A statement written at indentation level `d` (the indentation of its first
/// line is written by the caller).
pub open spec fn gen_stmt(s: StmtV, d: nat) -> Seq<char>
    decreases s,
{
    match s {
        StmtV::Assign(n, e, _) => n + " = "@ + gen_expr(e) + ";"@,
        StmtV::Expr(e, _) => gen_expr(e) + ";"@,
        StmtV::Let(n, e, _) => "let "@ + n + " = "@ + gen_expr(e) + ";"@,
        StmtV::Return(e, _) => "return"@ + match e {
            Some(x) => " "@ + gen_expr(x),
            None => Seq::empty(),
        } + ";"@,
        StmtV::If(c, t, e, _) => "if "@ + gen_expr(c) + " {\n"@ + gen_body(t, d + 1) + indent_text(d)
            + "}"@ + match e {
            Some(b) => " else {\n"@ + gen_body(b, d + 1) + indent_text(d) + "}"@,
            None => Seq::empty(),
        },
        StmtV::Repeat(c, b, _) => "repeat("@ + gen_expr(c) + ") {\n"@ + gen_body(b, d + 1)
            + indent_text(d) + "}"@,
        StmtV::Forever(b, _) => "forever {\n"@ + gen_body(b, d + 1) + indent_text(d) + "}"@,
        StmtV::Until(c, b, _) => "until "@ + gen_expr(c) + " {\n"@ + gen_body(b, d + 1) + indent_text(
            d,
        ) + "}"@,
        StmtV::Comment(c) => c,
        StmtV::Match(e, arms, _, _) => "match "@ + gen_expr(e) + " {\n"@ + gen_arms(arms, d + 1)
            + indent_text(d) + "}"@,
        StmtV::CBlock(n, args, b, _) => n + "("@ + gen_args(args) + ") {\n"@ + gen_body(b, d + 1)
            + indent_text(d) + "}"@,
    }
}

/// Statements, each on its own indented line.
pub open spec fn gen_body(s: Seq<StmtV>, d: nat) -> Seq<char>
    decreases s,
{
    if s.len() == 0 {
        Seq::empty()
    } else {
        gen_body(s.subrange(0, s.len() - 1), d) + indent_text(d) + gen_stmt(s[s.len() - 1], d)
            + "\n"@
    }
}

/// The arms of a `match`, each as `pattern => { ... }`.
pub open spec fn gen_arms(s: Seq<(ExprV, Seq<StmtV>)>, d: nat) -> Seq<char>
    decreases s,
{
    if s.len() == 0 {
        Seq::empty()
    } else {
        gen_arms(s.subrange(0, s.len() - 1), d) + indent_text(d) + gen_expr(s[s.len() - 1].0)
            + " => {\n"@ + gen_body(s[s.len() - 1].1, d + 1) + indent_text(d) + "}\n"@
    }
}

/// Parameters as `name: type`, separated by `", "`.
pub open spec fn gen_params(s: Seq<ParamV>) -> Seq<char>
    decreases s.len(),
{
    if s.len() == 0 {
        Seq::empty()
    } else {
        gen_params(s.subrange(0, s.len() - 1)) + (if s.len() > 1 {
            ", "@
        } else {
            Seq::empty()
        }) + s[s.len() - 1].name + ": "@ + type_text(s[s.len() - 1].ty)
    }
}

pub open spec fn gen_comment_line(c: Option<Seq<char>>, d: nat) -> Seq<char> {
    match c {
        Some(t) => t + "\n"@ + indent_text(d),
        None => Seq::empty(),
    }
}

pub open spec fn gen_proc(p: ProcedureDefV, d: nat) -> Seq<char> {
    indent_text(d) + gen_comment_line(p.comment, d) + (if p.is_warp {
        "#[warp]\n"@ + indent_text(d)
    } else {
        Seq::empty()
    }) + "proc "@ + p.name + "("@ + gen_params(p.params) + ")"@ + match p.return_type {
        Some(t) => " -> "@ + type_text(t),
        None => Seq::empty(),
    } + " {\n"@ + gen_body(p.body, d + 1) + indent_text(d) + "}\n"@
}

/// Attributes, each as `#[name]` or `#[name(args)]` followed by a new line.
pub open spec fn gen_attrs(s: Seq<AttributeV>, d: nat) -> Seq<char>
    decreases s.len(),
{
    if s.len() == 0 {
        Seq::empty()
    } else {
        let a = s[s.len() - 1];
        gen_attrs(s.subrange(0, s.len() - 1), d) + "#["@ + a.name + (if a.args.len() > 0 {
            "("@ + gen_args(a.args) + ")"@
        } else {
            Seq::empty()
        }) + "]\n"@ + indent_text(d)
    }
}

/// A function; its parameters are not written.
pub open spec fn gen_func(f: FunctionV, d: nat) -> Seq<char> {
    indent_text(d) + gen_comment_line(f.comment, d) + gen_attrs(f.attributes, d) + "fn "@ + f.name
        + "("@ + ") {\n"@ + gen_body(f.body, d + 1) + indent_text(d) + "}\n"@
}

pub open spec fn gen_item(i: ItemV, d: nat) -> Seq<char> {
    match i {
        ItemV::Variable(v) => indent_text(d) + (if v.visibility == Visibility::Public {
            "public "@
        } else {
            Seq::empty()
        }) + " "@ + (if v.ty == Type::List {
            "list"@
        } else {
            "var"@
        }) + " "@ + v.name + " = "@ + gen_expr(v.init) + ";\n"@,
        ItemV::Procedure(p) => gen_proc(p, d),
        ItemV::Function(f) => gen_func(f, d),
        ItemV::Costume(c) => indent_text(d) + "costume \""@ + c.name + "\" \""@ + c.path + "\""@
            + match (c.x, c.y) {
            (Some(x), Some(y)) => " "@ + canonical_number(x) + " "@ + canonical_number(y),
            _ => Seq::empty(),
        } + ";\n"@,
        ItemV::Sound(s) => indent_text(d) + "sound \""@ + s.name + "\" \""@ + s.path + "\";\n"@,
        ItemV::Comment(c) => indent_text(d) + c + "\n"@,
        ItemV::Stmt(s) => indent_text(d) + gen_stmt(s, d) + "\n"@,
        ItemV::BatchBreak => "\n"@,
        ItemV::Use(u) => indent_text(d) + "use "@ + u + ";\n"@,
        ItemV::Package(_) => indent_text(d) + "// Unknown item\n"@,
    }
}

/// A whole program: every item followed by a blank line.
pub open spec fn gen_program(s: Seq<ItemV>) -> Seq<char>
    decreases s.len(),
{
    if s.len() == 0 {
        Seq::empty()
    } else {
        gen_program(s.subrange(0, s.len() - 1)) + gen_item(s[s.len() - 1], 0) + "\n"@
    }
}

// ---------------------------------------------------------------------------
// Nesting depth, which bounds the indentation the generator reaches
// ---------------------------------------------------------------------------

pub open spec fn max_nat(a: nat, b: nat) -> nat {
    if a >= b {
        a
    } else {
        b
    }
}

pub open spec fn stmt_depth(s: StmtV) -> nat
    decreases s,
{
    match s {
        StmtV::If(_, t, e, _) => 1 + max_nat(
            body_depth(t),
            match e {
                Some(b) => body_depth(b),
                None => 0,
            },
        ),
        StmtV::Repeat(_, b, _) => 1 + body_depth(b),
        StmtV::Forever(b, _) => 1 + body_depth(b),
        StmtV::Until(_, b, _) => 1 + body_depth(b),
        StmtV::Match(_, arms, _, _) => 2 + arms_depth(arms),
        StmtV::CBlock(_, _, b, _) => 1 + body_depth(b),
        _ => 0,
    }
}

pub open spec fn body_depth(s: Seq<StmtV>) -> nat
    decreases s,
{
    if s.len() == 0 {
        0
    } else {
        max_nat(body_depth(s.subrange(0, s.len() - 1)), stmt_depth(s[s.len() - 1]))
    }
}

pub open spec fn arms_depth(s: Seq<(ExprV, Seq<StmtV>)>) -> nat
    decreases s,
{
    if s.len() == 0 {
        0
    } else {
        max_nat(arms_depth(s.subrange(0, s.len() - 1)), body_depth(s[s.len() - 1].1))
    }
}

pub open spec fn item_depth(i: ItemV) -> nat {
    match i {
        ItemV::Procedure(p) => 1 + body_depth(p.body),
        ItemV::Function(f) => 1 + body_depth(f.body),
        ItemV::Stmt(s) => stmt_depth(s),
        _ => 0,
    }
}

pub open spec fn program_depth(s: Seq<ItemV>) -> nat
    decreases s.len(),
{
    if s.len() == 0 {
        0
    } else {
        max_nat(program_depth(s.subrange(0, s.len() - 1)), item_depth(s[s.len() - 1]))
    }
}

proof fn lemma_body_depth(s: Seq<StmtV>, i: int)
    requires
        0 <= i < s.len(),
    ensures
        stmt_depth(s[i]) <= body_depth(s),
        body_depth(s.subrange(0, i)) <= body_depth(s),
    decreases s.len(),
{
    if i < s.len() - 1 {
        lemma_body_depth(s.subrange(0, s.len() - 1), i);
        assert(s.subrange(0, s.len() - 1).subrange(0, i) =~= s.subrange(0, i));
    }
}

proof fn lemma_arms_depth(s: Seq<(ExprV, Seq<StmtV>)>, i: int)
    requires
        0 <= i < s.len(),
    ensures
        body_depth(s[i].1) <= arms_depth(s),
    decreases s.len(),
{
    if i < s.len() - 1 {
        lemma_arms_depth(s.subrange(0, s.len() - 1), i);
    }
}

proof fn lemma_program_depth(s: Seq<ItemV>, i: int)
    requires
        0 <= i < s.len(),
    ensures
        item_depth(s[i]) <= program_depth(s),
    decreases s.len(),
{
    if i < s.len() - 1 {
        lemma_program_depth(s.subrange(0, s.len() - 1), i);
    }
}

// ---------------------------------------------------------------------------
// The generator
// ---------------------------------------------------------------------------

pub struct CodeGenerator {
    buffer: String,
    indent: usize,
}

pub fn type_str(t: &Type) -> (r: &'static str)
    ensures
        r@ == type_text(*t),
{
    match t {
        Type::Number => "number",
        Type::String => "string",
        Type::Boolean => "boolean",
        Type::List => "list",
        Type::Unknown => "unknown",
    }
}

fn op_str(op: &Op) -> (r: &'static str)
    ensures
        r@ == op_text(*op),
{
    match op {
        Op::Add => "+",
        Op::Sub => "-",
        Op::Mul => "*",
        Op::Div => "/",
        Op::Mod => "%",
        Op::Eq => "==",
        Op::Gt => ">",
        Op::Lt => "<",
        Op::And => "&&",
        Op::Or => "||",
        Op::Ne => "!=",
        Op::Ge => ">=",
        Op::Le => "<=",
    }
}

impl CodeGenerator {
    pub closed spec fn text(&self) -> Seq<char> {
        self.buffer@
    }

    pub closed spec fn level(&self) -> nat {
        self.indent as nat
    }

    /// A generator with an empty buffer at indentation level 0.
    pub fn new() -> (r: Self)
        ensures
            r.text() == Seq::<char>::empty(),
            r.level() == 0,
    {
        CodeGenerator { buffer: String::new(), indent: 0 }
    }

    /// The source text of `program`: each item rendered at level 0 and
    /// followed by a new line.
    pub fn generate(self, program: &Program) -> (r: String)
        requires
            self.level() == 0,
            program_depth(program@.items) < usize::MAX,
        ensures
            r@ == self.text() + gen_program(program@.items),
    {
        let mut g = self;
        let ghost start = g.buffer@;
        let ghost items = program@.items;
        proof {
            lemma_items_view(program.items@);
        }
        let mut i: usize = 0;
        while i < program.items.len()
            invariant
                g.indent == 0,
                i <= program.items.len(),
                items == items_view(program.items@),
                items.len() == program.items.len(),
                forall|k: int| 0 <= k < items.len() ==> #[trigger] items[k] == item_view(program.items@[k]),
                program_depth(items) < usize::MAX,
                g.buffer@ == start + gen_program(items.subrange(0, i as int)),
            decreases program.items.len() - i,
        {
            proof {
                lemma_program_depth(items, i as int);
                assert(items.subrange(0, i + 1).subrange(0, i as int) =~= items.subrange(0, i as int));
            }
            g.generate_item(&program.items[i]);
            g.buffer.append("\n");
            proof {
                let q = items.subrange(0, i + 1);
                assert(q[q.len() - 1] == items[i as int]);
            }
            i += 1;
        }
        assert(items.subrange(0, i as int) =~= items);
        g.buffer
    }

    /// Writes the indentation of the current level: four spaces per level.
    pub fn indent(&mut self)
        ensures
            final(self).text() == old(self).text() + indent_text(old(self).level()),
            final(self).level() == old(self).level(),
    {
        let mut k: usize = 0;
        while k < self.indent
            invariant
                k <= self.indent,
                self.indent == old(self).indent,
                self.buffer@ == old(self).buffer@ + indent_text(k as nat),
            decreases self.indent - k,
        {
            self.buffer.append("    ");
            k += 1;
        }
    }

    fn generate_item(&mut self, item: &Item)
        requires
            old(self).indent + item_depth(item@) < usize::MAX,
        ensures
            final(self).buffer@ == old(self).buffer@ + gen_item(item@, old(self).indent as nat),
            final(self).indent == old(self).indent,
    {
        let ghost d = self.indent as nat;
        match item {
            Item::Variable(var) => {
                self.indent();
                match var.visibility {
                    Visibility::Public => self.buffer.append("public "),
                    _ => {},
                }
                self.buffer.append(" ");
                match var.ty {
                    Type::List => self.buffer.append("list"),
                    _ => self.buffer.append("var"),
                }
                self.buffer.append(" ");
                self.buffer.append(var.name.as_str());
                self.buffer.append(" = ");
                self.generate_expr(&var.init);
                self.buffer.append(";\n");
            },
            Item::Procedure(proc) => {
                self.generate_proc(proc);
            },
            Item::Function(func) => {
                self.generate_func(func);
            },
            Item::Costume(c) => {
                self.indent();
                self.buffer.append("costume \"");
                self.buffer.append(c.name.as_str());
                self.buffer.append("\" \"");
                self.buffer.append(c.path.as_str());
                self.buffer.append("\"");
                if let Some(x) = &c.x {
                    if let Some(y) = &c.y {
                        self.buffer.append(" ");
                        let xs = number_display(x.text.as_str());
                        self.buffer.append(xs.as_str());
                        self.buffer.append(" ");
                        let ys = number_display(y.text.as_str());
                        self.buffer.append(ys.as_str());
                    }
                }
                self.buffer.append(";\n");
            },
            Item::Sound(s) => {
                self.indent();
                self.buffer.append("sound \"");
                self.buffer.append(s.name.as_str());
                self.buffer.append("\" \"");
                self.buffer.append(s.path.as_str());
                self.buffer.append("\";\n");
            },
            Item::Comment(c) => {
                self.indent();
                self.buffer.append(c.as_str());
                self.buffer.append("\n");
            },
            Item::Stmt(stmt) => {
                self.indent();
                self.generate_stmt(stmt);
                self.buffer.append("\n");
            },
            Item::BatchBreak => {
                self.buffer.append("\n");
            },
            Item::Use(u) => {
                self.indent();
                self.buffer.append("use ");
                self.buffer.append(u.as_str());
                self.buffer.append(";\n");
            },
            Item::Package(_) => {
                self.indent();
                self.buffer.append("// Unknown item\n");
            },
        }
    }

    /// Writes each statement of `body` on its own line at one level deeper.
    fn generate_body(&mut self, body: &Vec<Stmt>)
        requires
            old(self).indent + 1 + body_depth(stmts_view(body@)) < usize::MAX,
        ensures
            final(self).buffer@ == old(self).buffer@ + gen_body(
                stmts_view(body@),
                old(self).indent as nat + 1,
            ),
            final(self).indent == old(self).indent,
        decreases body, 0nat,
    {
        let ghost sv = stmts_view(body@);
        proof {
            lemma_stmts_view(body@);
        }
        self.indent = self.indent + 1;
        let mut i: usize = 0;
        while i < body.len()
            invariant
                self.indent == old(self).indent + 1,
                i <= body.len(),
                sv == stmts_view(body@),
                sv.len() == body.len(),
                forall|k: int| 0 <= k < sv.len() ==> #[trigger] sv[k] == stmt_view(body@[k]),
                self.indent + body_depth(sv) < usize::MAX,
                self.buffer@ == old(self).buffer@ + gen_body(
                    sv.subrange(0, i as int),
                    self.indent as nat,
                ),
            decreases body.len() - i,
        {
            proof {
                lemma_body_depth(sv, i as int);
                assert(sv.subrange(0, i + 1).subrange(0, i as int) =~= sv.subrange(0, i as int));
            }
            self.indent();
            self.generate_stmt(&body[i]);
            self.buffer.append("\n");
            i += 1;
        }
        assert(sv.subrange(0, i as int) =~= sv);
        self.indent = self.indent - 1;
    }

    fn generate_proc(&mut self, proc: &ProcedureDef)
        requires
            old(self).indent + 1 + body_depth(stmts_view(proc.body@)) < usize::MAX,
        ensures
            final(self).buffer@ == old(self).buffer@ + gen_proc(proc@, old(self).indent as nat),
            final(self).indent == old(self).indent,
    {
        let ghost d = self.indent as nat;
        let ghost b0 = self.buffer@;
        self.indent();
        if let Some(comment) = &proc.comment {
            self.buffer.append(comment.as_str());
            self.buffer.append("\n");
            self.indent();
        }
        if proc.is_warp {
            self.buffer.append("#[warp]\n");
            self.indent();
        }
        let ghost b1 = self.buffer@;
        self.buffer.append("proc ");
        self.buffer.append(proc.name.as_str());
        self.buffer.append("(");
        let ghost b2 = self.buffer@;
        let ghost pv = params_view(proc.params@);
        let mut i: usize = 0;
        while i < proc.params.len()
            invariant
                i <= proc.params.len(),
                pv == params_view(proc.params@),
                self.indent == old(self).indent,
                self.buffer@ == b2 + gen_params(pv.subrange(0, i as int)),
            decreases proc.params.len() - i,
        {
            assert(pv.subrange(0, i + 1).subrange(0, i as int) =~= pv.subrange(0, i as int));
            if i > 0 {
                self.buffer.append(", ");
            }
            self.buffer.append(proc.params[i].name.as_str());
            self.buffer.append(": ");
            self.buffer.append(type_str(&proc.params[i].ty));
            proof {
                let q = pv.subrange(0, i + 1);
                assert(q[q.len() - 1] == pv[i as int]);
                if i > 0 {
                    assert(self.buffer@ =~= b2 + gen_params(q));
                } else {
                    assert(self.buffer@ =~= b2 + gen_params(q));
                }
            }
            i += 1;
        }
        assert(pv.subrange(0, i as int) =~= pv);
        self.buffer.append(")");
        if let Some(rt) = &proc.return_type {
            self.buffer.append(" -> ");
            self.buffer.append(type_str(rt));
        }
        self.buffer.append(" {\n");
        self.generate_body(&proc.body);
        self.indent();
        self.buffer.append("}\n");
        assert(self.buffer@ =~= b0 + gen_proc(proc@, d));
    }

    fn generate_func(&mut self, func: &Function)
        requires
            old(self).indent + 1 + body_depth(stmts_view(func.body@)) < usize::MAX,
        ensures
            final(self).buffer@ == old(self).buffer@ + gen_func(func@, old(self).indent as nat),
            final(self).indent == old(self).indent,
    {
        let ghost d = self.indent as nat;
        let ghost b0 = self.buffer@;
        self.indent();
        if let Some(comment) = &func.comment {
            self.buffer.append(comment.as_str());
            self.buffer.append("\n");
            self.indent();
        }
        let ghost b1 = self.buffer@;
        let ghost av = attrs_view(func.attributes@);
        let mut i: usize = 0;
        while i < func.attributes.len()
            invariant
                i <= func.attributes.len(),
                av == attrs_view(func.attributes@),
                self.indent == old(self).indent,
                d == self.indent,
                self.buffer@ == b1 + gen_attrs(av.subrange(0, i as int), d),
            decreases func.attributes.len() - i,
        {
            assert(av.subrange(0, i + 1).subrange(0, i as int) =~= av.subrange(0, i as int));
            let attr = &func.attributes[i];
            self.buffer.append("#[");
            self.buffer.append(attr.name.as_str());
            if attr.args.len() > 0 {
                self.buffer.append("(");
                self.generate_args(&attr.args);
                self.buffer.append(")");
            }
            self.buffer.append("]\n");
            self.indent();
            proof {
                lemma_exprs_view(attr.args@);
                let q = av.subrange(0, i + 1);
                assert(q[q.len() - 1] == av[i as int]);
                assert(self.buffer@ =~= b1 + gen_attrs(q, d));
            }
            i += 1;
        }
        assert(av.subrange(0, i as int) =~= av);
        self.buffer.append("fn ");
        self.buffer.append(func.name.as_str());
        self.buffer.append("(");
        self.buffer.append(") {\n");
        self.generate_body(&func.body);
        self.indent();
        self.buffer.append("}\n");
        assert(self.buffer@ =~= b0 + gen_func(func@, d));
    }

    #[verifier::rlimit(60)]
    fn generate_stmt(&mut self, stmt: &Stmt)
        requires
            old(self).indent + stmt_depth(stmt@) < usize::MAX,
        ensures
            final(self).buffer@ == old(self).buffer@ + gen_stmt(stmt@, old(self).indent as nat),
            final(self).indent == old(self).indent,
        decreases stmt, 1nat,
    {
        let ghost d = self.indent as nat;
        let ghost b0 = self.buffer@;
        match stmt {
            Stmt::Assign(name, expr, _) => {
                self.buffer.append(name.as_str());
                self.buffer.append(" = ");
                self.generate_expr(expr);
                self.buffer.append(";");
            },
            Stmt::Expr(expr, _) => {
                self.generate_expr(expr);
                self.buffer.append(";");
            },
            Stmt::Let(name, expr, _) => {
                self.buffer.append("let ");
                self.buffer.append(name.as_str());
                self.buffer.append(" = ");
                self.generate_expr(expr);
                self.buffer.append(";");
            },
            Stmt::Return(expr, _) => {
                self.buffer.append("return");
                if let Some(e) = expr {
                    self.buffer.append(" ");
                    self.generate_expr(e);
                }
                self.buffer.append(";");
            },
            Stmt::If(cond, then_block, else_block, _) => {
                self.buffer.append("if ");
                self.generate_expr(cond);
                self.buffer.append(" {\n");
                proof {
                    if let Some(b) = else_block {
                        assert(stmt_depth(stmt@) >= 1 + body_depth(stmts_view(b@)));
                    }
                }
                self.generate_body(then_block);
                self.indent();
                self.buffer.append("}");
                if let Some(else_b) = else_block {
                    self.buffer.append(" else {\n");
                    self.generate_body(else_b);
                    self.indent();
                    self.buffer.append("}");
                }
            },
            Stmt::Repeat(count, body, _) => {
                self.buffer.append("repeat(");
                self.generate_expr(count);
                self.buffer.append(") {\n");
                self.generate_body(body);
                self.indent();
                self.buffer.append("}");
            },
            Stmt::Forever(body, _) => {
                self.buffer.append("forever {\n");
                self.generate_body(body);
                self.indent();
                self.buffer.append("}");
            },
            Stmt::Until(cond, body, _) => {
                self.buffer.append("until ");
                self.generate_expr(cond);
                self.buffer.append(" {\n");
                self.generate_body(body);
                self.indent();
                self.buffer.append("}");
            },
            Stmt::Comment(c) => {
                self.buffer.append(c.as_str());
            },
            Stmt::Match(expr, arms, _, _) => {
                self.buffer.append("match ");
                self.generate_expr(expr);
                self.buffer.append(" {\n");
                self.generate_arms(arms);
                self.indent();
                self.buffer.append("}");
            },
            Stmt::CBlock(name, args, body, _) => {
                self.buffer.append(name.as_str());
                self.buffer.append("(");
                self.generate_args(args);
                self.buffer.append(") {\n");
                self.generate_body(body);
                self.indent();
                self.buffer.append("}");
            },
        }
    }

    /// Writes the arms of a `match` at one level deeper.
    fn generate_arms(&mut self, arms: &Vec<(Expr, Vec<Stmt>)>)
        requires
            old(self).indent + 2 + arms_depth(arms_view(arms@)) < usize::MAX,
        ensures
            final(self).buffer@ == old(self).buffer@ + gen_arms(
                arms_view(arms@),
                old(self).indent as nat + 1,
            ),
            final(self).indent == old(self).indent,
        decreases arms, 0nat,
    {
        let ghost av = arms_view(arms@);
        proof {
            lemma_arms_view(arms@);
        }
        self.indent = self.indent + 1;
        let mut i: usize = 0;
        while i < arms.len()
            invariant
                self.indent == old(self).indent + 1,
                i <= arms.len(),
                av == arms_view(arms@),
                av.len() == arms.len(),
                forall|k: int|
                    0 <= k < av.len() ==> #[trigger] av[k] == (expr_view(arms@[k].0), stmts_view(
                        arms@[k].1@,
                    )),
                self.indent + 1 + arms_depth(av) < usize::MAX,
                self.buffer@ == old(self).buffer@ + gen_arms(av.subrange(0, i as int), self.indent as nat),
            decreases arms.len() - i,
        {
            proof {
                lemma_arms_depth(av, i as int);
                assert(av.subrange(0, i + 1).subrange(0, i as int) =~= av.subrange(0, i as int));
            }
            let ghost b = self.buffer@;
            let (pat, stmts) = &arms[i];
            self.indent();
            self.generate_expr(pat);
            self.buffer.append(" => {\n");
            self.generate_body(stmts);
            self.indent();
            self.buffer.append("}\n");
            proof {
                let q = av.subrange(0, i + 1);
                assert(q[q.len() - 1] == av[i as int]);
                assert(self.buffer@ =~= old(self).buffer@ + gen_arms(q, self.indent as nat));
            }
            i += 1;
        }
        assert(av.subrange(0, i as int) =~= av);
        self.indent = self.indent - 1;
    }

    /// Writes expressions separated by `", "`.
    fn generate_args(&mut self, args: &Vec<Expr>)
        ensures
            final(self).buffer@ == old(self).buffer@ + gen_args(exprs_view(args@)),
            final(self).indent == old(self).indent,
        decreases args, 0nat,
    {
        let ghost ev = exprs_view(args@);
        proof {
            lemma_exprs_view(args@);
        }
        let mut i: usize = 0;
        while i < args.len()
            invariant
                self.indent == old(self).indent,
                i <= args.len(),
                ev == exprs_view(args@),
                ev.len() == args.len(),
                forall|k: int| 0 <= k < ev.len() ==> #[trigger] ev[k] == expr_view(args@[k]),
                self.buffer@ == old(self).buffer@ + gen_args(ev.subrange(0, i as int)),
            decreases args.len() - i,
        {
            assert(ev.subrange(0, i + 1).subrange(0, i as int) =~= ev.subrange(0, i as int));
            let ghost b = self.buffer@;
            if i > 0 {
                self.buffer.append(", ");
            }
            self.generate_expr(&args[i]);
            proof {
                let q = ev.subrange(0, i + 1);
                assert(q[q.len() - 1] == ev[i as int]);
                assert(self.buffer@ =~= old(self).buffer@ + gen_args(q));
            }
            i += 1;
        }
        assert(ev.subrange(0, i as int) =~= ev);
    }

    #[verifier::rlimit(60)]
    fn generate_expr(&mut self, expr: &Expr)
        ensures
            final(self).buffer@ == old(self).buffer@ + gen_expr(expr@),
            final(self).indent == old(self).indent,
        decreases expr, 1nat,
    {
        let ghost b0 = self.buffer@;
        match expr {
            Expr::Number(f) => {
                let s = number_display(f.text.as_str());
                self.buffer.append(s.as_str());
            },
            Expr::String(s) => {
                let q = debug_quote(s.as_str());
                self.buffer.append(q.as_str());
            },
            Expr::Bool(b) => {
                if *b {
                    self.buffer.append("true");
                } else {
                    self.buffer.append("false");
                }
            },
            Expr::Variable(v) => {
                self.buffer.append(v.as_str());
            },
            Expr::BinOp(l, op, r) => {
                self.generate_expr(l);
                self.buffer.append(" ");
                self.buffer.append(op_str(op));
                self.buffer.append(" ");
                self.generate_expr(r);
            },
            Expr::Call(name, args) => {
                self.buffer.append(name.as_str());
                self.buffer.append("(");
                self.generate_args(args);
                self.buffer.append(")");
            },
            Expr::List(items) => {
                self.buffer.append("[");
                self.generate_args(items);
                self.buffer.append("]");
            },
            _ => {
                self.buffer.append("/* unknown expr */");
            },
        }
    }
}

} // verus!
