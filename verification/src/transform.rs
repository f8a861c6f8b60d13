//! The stack-frame rewrite: procedures that declare locals with `let`, that
//! `return` a value, or that call a procedure returning a value are split into
//! a wrapper and an inner procedure whose locals live in a frame of the
//! `_RAM` list, addressed from `base`.
use vstd::prelude::*;
use crate::ast::{
    Expr, ExprV, Stmt, StmtV, Op, NumLit, Type, Param, ParamV, ProcedureDef, ProcedureDefV,
    Function, FunctionV, Item, ItemV, exprs_view, expr_view, stmt_view, item_view, stmts_view, arms_view, params_view,
    lemma_exprs_view, lemma_stmts_view, lemma_arms_view, lemma_exprs_view_push,
    lemma_stmts_view_push, lemma_stmts_view_add, copy_string_opt, copy_params, copy_attrs,
    copy_strings, strs_view, items_view, lemma_items_view_push, lemma_items_view, lemma_items_view_add,
    VariableDecl, VariableDeclV, 
    Visibility,
};
use crate::text::{str_eq, u64_decimal, nat_decimal};
use crate::merge::{
    link, link_packages, pkgs_view, pkgs_fit, count_pkgs, count_items, drop_uses, merge_run, merge_start, MergeState,
    r_stmts, r_stmt, r_expr, r_exprs, rename_item, rename_proc, split_pkg_call, find_pkg,
};
use crate::ast::{Program, Package, PackageV};

verus! {

broadcast use crate::text::lemma_add_assoc;

// ---------------------------------------------------------------------------
// The frame context
// ---------------------------------------------------------------------------

/// The model of a [`TransformContext`]: the next free frame slot, the slot of
/// each visible local, the names declared in each open scope (innermost
/// last) and the procedures whose calls yield a value.
pub ghost struct CtxV {
    pub offset: int,
    pub locals: Map<Seq<char>, i32>,
    pub scopes: Seq<Seq<Seq<char>>>,
    pub procs: Seq<Seq<char>>,
}

/// An association list read as a map: a later entry for a name hides an
/// earlier one.
pub open spec fn assoc_map(s: Seq<(String, i32)>) -> Map<Seq<char>, i32>
    decreases s.len(),
{
    if s.len() == 0 {
        Map::empty()
    } else {
        assoc_map(s.subrange(0, s.len() - 1)).insert(s[s.len() - 1].0@, s[s.len() - 1].1)
    }
}

/// The entries of `s` whose name is not `k`, in order.
pub open spec fn drop_key(s: Seq<(String, i32)>, k: Seq<char>) -> Seq<(String, i32)>
    decreases s.len(),
{
    if s.len() == 0 {
        s
    } else {
        let r = drop_key(s.subrange(0, s.len() - 1), k);
        if s[s.len() - 1].0@ == k {
            r
        } else {
            r.push(s[s.len() - 1])
        }
    }
}

/// `m` without each of the names of `vs`, removed in order.
pub open spec fn remove_all(m: Map<Seq<char>, i32>, vs: Seq<Seq<char>>) -> Map<Seq<char>, i32>
    decreases vs.len(),
{
    if vs.len() == 0 {
        m
    } else {
        remove_all(m, vs.subrange(0, vs.len() - 1)).remove(vs[vs.len() - 1])
    }
}

pub open spec fn ctx_enter(c: CtxV) -> CtxV {
    CtxV { scopes: c.scopes.push(Seq::empty()), ..c }
}

pub open spec fn ctx_leave(c: CtxV) -> CtxV {
    CtxV {
        locals: remove_all(c.locals, c.scopes.last()),
        scopes: c.scopes.drop_last(),
        ..c
    }
}

pub open spec fn ctx_define(c: CtxV, name: Seq<char>) -> CtxV {
    CtxV {
        offset: c.offset + 1,
        locals: c.locals.insert(name, c.offset as i32),
        scopes: c.scopes.update(c.scopes.len() - 1, c.scopes.last().push(name)),
        ..c
    }
}

pub open spec fn ctx_temp(c: CtxV) -> CtxV {
    CtxV { offset: c.offset + 1, ..c }
}

/// The slot of `name`, when it is a visible local.
pub open spec fn ctx_get(c: CtxV, name: Seq<char>) -> Option<i32> {
    if c.locals.dom().contains(name) {
        Some(c.locals[name])
    } else {
        None
    }
}

proof fn lemma_assoc_drop(s: Seq<(String, i32)>, k: Seq<char>)
    ensures
        assoc_map(drop_key(s, k)) == assoc_map(s).remove(k),
    decreases s.len(),
{
    if s.len() > 0 {
        let init = s.subrange(0, s.len() - 1);
        lemma_assoc_drop(init, k);
        if s[s.len() - 1].0@ == k {
            assert(assoc_map(s).remove(k) =~= assoc_map(init).remove(k));
        } else {
            let r = drop_key(init, k);
            assert(r.push(s[s.len() - 1]).subrange(0, r.len() as int) =~= r);
            assert(assoc_map(drop_key(s, k)) =~= assoc_map(s).remove(k));
        }
    }
}

proof fn lemma_assoc_absent(s: Seq<(String, i32)>, k: Seq<char>)
    requires
        forall|j: int| 0 <= j < s.len() ==> #[trigger] s[j].0@ != k,
    ensures
        !assoc_map(s).dom().contains(k),
    decreases s.len(),
{
    if s.len() > 0 {
        let init = s.subrange(0, s.len() - 1);
        assert forall|j: int| 0 <= j < init.len() implies #[trigger] init[j].0@ != k by {
            assert(init[j] == s[j]);
        }
        lemma_assoc_absent(init, k);
    }
}

proof fn lemma_assoc_last(s: Seq<(String, i32)>, i: int, k: Seq<char>)
    requires
        0 <= i < s.len(),
        s[i].0@ == k,
        forall|j: int| i < j < s.len() ==> #[trigger] s[j].0@ != k,
    ensures
        assoc_map(s).dom().contains(k),
        assoc_map(s)[k] == s[i].1,
    decreases s.len(),
{
    let init = s.subrange(0, s.len() - 1);
    if i < s.len() - 1 {
        assert forall|j: int| i < j < init.len() implies #[trigger] init[j].0@ != k by {
            assert(init[j] == s[j]);
        }
        lemma_assoc_last(init, i, k);
    }
}

/// The state of the frame rewrite of one procedure: the next free slot of the
/// frame (slot 0 holds the return value), the locals in scope with their
/// slots, the names declared in each open scope, and the procedures whose
/// calls yield a value.
pub struct TransformContext {
    scope_offset: i32,
    locals: Vec<(String, i32)>,
    scopes: Vec<Vec<String>>,
    user_procs: Vec<String>,
}

impl View for TransformContext {
    type V = CtxV;

    closed spec fn view(&self) -> CtxV {
        CtxV {
            offset: self.scope_offset as int,
            locals: assoc_map(self.locals@),
            scopes: self.scopes@.map_values(|v: Vec<String>| strs_view(v@)),
            procs: strs_view(self.user_procs@),
        }
    }
}

impl TransformContext {
    /// The offset is never negative.
    pub closed spec fn wf(&self) -> bool {
        &&& 0 <= self.scope_offset
        &&& forall|j: int| 0 <= j < self.locals@.len() ==> 0 <= #[trigger] self.locals@[j].1
    }

    /// A context with one open scope, no locals, and the first free slot 1.
    pub fn new(user_procs: Vec<String>) -> (r: TransformContext)
        ensures
            r.wf(),
            r@ == (CtxV {
                offset: 1,
                locals: Map::empty(),
                scopes: seq![Seq::<Seq<char>>::empty()],
                procs: strs_view(user_procs@),
            }),
    {
        let mut scopes: Vec<Vec<String>> = Vec::new();
        scopes.push(Vec::new());
        let r = TransformContext { scope_offset: 1, locals: Vec::new(), scopes, user_procs };
        assert(strs_view(r.scopes@[0]@) =~= Seq::<Seq<char>>::empty());
        assert(r@.scopes =~= seq![Seq::<Seq<char>>::empty()]);
        assert(r@.locals =~= Map::empty());
        r
    }

    /// Opens a scope.
    pub fn enter_scope(&mut self)
        requires
            old(self).wf(),
        ensures
            final(self).wf(),
            final(self)@ == ctx_enter(old(self)@),
    {
        self.scopes.push(Vec::new());
        assert(strs_view(self.scopes@[self.scopes@.len() - 1]@) =~= Seq::<Seq<char>>::empty());
        assert(self@.scopes =~= ctx_enter(old(self)@).scopes);
    }

    /// Closes the innermost scope; the locals it declared are forgotten.
    pub fn leave_scope(&mut self)
        requires
            old(self).wf(),
            old(self)@.scopes.len() >= 1,
        ensures
            final(self).wf(),
            final(self)@ == ctx_leave(old(self)@),
    {
        let vars = self.scopes.pop().unwrap();
        assert(strs_view(vars@) == old(self)@.scopes.last());
        let mut i: usize = 0;
        while i < vars.len()
            invariant
                self.wf(),
                self.scope_offset == old(self).scope_offset,
                self.scopes@ == old(self).scopes@.drop_last(),
                self.user_procs@ == old(self).user_procs@,
                i <= vars.len(),
                assoc_map(self.locals@) == remove_all(
                    assoc_map(old(self).locals@),
                    strs_view(vars@).subrange(0, i as int),
                ),
            decreases vars.len() - i,
        {
            self.remove_local(&vars[i]);
            assert(strs_view(vars@).subrange(0, i + 1).subrange(0, i as int)
                =~= strs_view(vars@).subrange(0, i as int));
            i += 1;
        }
        assert(strs_view(vars@).subrange(0, i as int) =~= strs_view(vars@));
        assert(self@.scopes =~= ctx_leave(old(self)@).scopes);
    }

    fn remove_local(&mut self, name: &String)
        ensures
            final(self).scope_offset == old(self).scope_offset,
            final(self).scopes@ == old(self).scopes@,
            final(self).user_procs@ == old(self).user_procs@,
            assoc_map(final(self).locals@) == assoc_map(old(self).locals@).remove(name@),
            old(self).wf() ==> final(self).wf(),
    {
        let mut kept: Vec<(String, i32)> = Vec::new();
        let mut i: usize = 0;
        while i < self.locals.len()
            invariant
                i <= self.locals.len(),
                self.locals@ == old(self).locals@,
                kept@ == drop_key(self.locals@.subrange(0, i as int), name@),
                old(self).wf() ==> forall|k: int| 0 <= k < kept@.len() ==> 0 <= #[trigger] kept@[k].1,
            decreases self.locals.len() - i,
        {
            assert(self.locals@.subrange(0, i + 1).subrange(0, i as int)
                =~= self.locals@.subrange(0, i as int));
            if !str_eq(self.locals[i].0.as_str(), name.as_str()) {
                kept.push((self.locals[i].0.clone(), self.locals[i].1));
            }
            i += 1;
        }
        assert(self.locals@.subrange(0, i as int) =~= self.locals@);
        proof {
            lemma_assoc_drop(old(self).locals@, name@);
        }
        self.locals = kept;
    }

    /// Gives `name` the next free slot in the innermost scope, and returns it.
    pub fn define_local(&mut self, name: String) -> (r: i32)
        requires
            old(self).wf(),
            old(self)@.scopes.len() >= 1,
            old(self)@.offset < i32::MAX,
        ensures
            final(self).wf(),
            r == old(self)@.offset,
            final(self)@ == ctx_define(old(self)@, name@),
    {
        let offset = self.scope_offset;
        self.scope_offset = self.scope_offset + 1;
        self.locals.push((name.clone(), offset));
        assert(self.locals@.subrange(0, self.locals@.len() - 1) =~= old(self).locals@);
        assert forall|j: int| 0 <= j < self.locals@.len() implies 0 <= #[trigger] self.locals@[j].1 by {
            if j < old(self).locals@.len() {
                assert(self.locals@[j] == old(self).locals@[j]);
            }
        }
        let mut top = self.scopes.pop().unwrap();
        let ghost old_top = top@;
        top.push(name);
        self.scopes.push(top);
        assert(strs_view(old_top.push(name)) =~= strs_view(old_top).push(name@));
        assert(self@.scopes =~= ctx_define(old(self)@, name@).scopes);
        offset
    }

    /// Takes the next free slot for a temporary, and returns it.
    pub fn define_temp(&mut self) -> (r: i32)
        requires
            old(self).wf(),
            old(self)@.offset < i32::MAX,
        ensures
            final(self).wf(),
            r == old(self)@.offset,
            final(self)@ == ctx_temp(old(self)@),
    {
        let offset = self.scope_offset;
        self.scope_offset = self.scope_offset + 1;
        offset
    }

    /// The slot of a visible local.
    pub fn get_local(&self, name: &str) -> (r: Option<i32>)
        ensures
            r == ctx_get(self@, name@),
            self.wf() ==> (r matches Some(v) ==> 0 <= v),
    {
        let mut i: usize = self.locals.len();
        while i > 0
            invariant
                i <= self.locals.len(),
                forall|j: int| i <= j < self.locals.len() ==> #[trigger] self.locals@[j].0@ != name@,
            decreases i,
        {
            if str_eq(self.locals[i - 1].0.as_str(), name) {
                proof {
                    lemma_assoc_last(self.locals@, i - 1, name@);
                }
                return Some(self.locals[i - 1].1);
            }
            i -= 1;
        }
        proof {
            lemma_assoc_absent(self.locals@, name@);
        }
        None
    }

    /// The frame offset, for callers that restore it after a block.
    fn offset(&self) -> (r: i32)
        ensures
            r == self@.offset,
    {
        self.scope_offset
    }

    fn set_offset(&mut self, o: i32)
        requires
            old(self).wf(),
            0 <= o,
        ensures
            final(self).wf(),
            final(self)@ == (CtxV { offset: o as int, ..old(self)@ }),
    {
        self.scope_offset = o;
    }

    fn is_value_proc(&self, name: &str) -> (r: bool)
        ensures
            r == self@.procs.contains(name@),
    {
        let mut i: usize = 0;
        while i < self.user_procs.len()
            invariant
                i <= self.user_procs.len(),
                forall|j: int| 0 <= j < i ==> #[trigger] self.user_procs@[j]@ != name@,
            decreases self.user_procs.len() - i,
        {
            if str_eq(self.user_procs[i].as_str(), name) {
                assert(strs_view(self.user_procs@)[i as int] == name@);
                return true;
            }
            i += 1;
        }
        assert forall|j: int| 0 <= j < self@.procs.len() implies #[trigger] self@.procs[j] != name@ by {
            assert(strs_view(self.user_procs@)[j] == self.user_procs@[j]@);
        }
        false
    }
}


// ---------------------------------------------------------------------------
// The rewrite of expressions and statements, as spec functions
// ---------------------------------------------------------------------------

/// The number literal of a slot.
pub open spec fn slot_num(n: int) -> ExprV {
    ExprV::Number(nat_decimal(n as nat))
}

/// `item_of_list("_RAM", <ptr> + <n>)`: the cell `n` of the frame at `ptr`.
pub open spec fn ram_cell(ptr: Seq<char>, n: int) -> ExprV {
    ExprV::Call(
        "item_of_list"@,
        seq![
            ExprV::String("_RAM"@),
            ExprV::BinOp(Box::new(ExprV::Variable(ptr)), Op::Add, Box::new(slot_num(n))),
        ],
    )
}

/// `stack_set(base, <n>, <val>);`
pub open spec fn stack_set_stmt(n: int, val: ExprV) -> StmtV {
    StmtV::Expr(
        ExprV::Call("stack_set"@, seq![ExprV::Variable("base"@), slot_num(n), val]),
        None,
    )
}

/// `_RET_VAL = base;`
pub open spec fn ret_base_stmt() -> StmtV {
    StmtV::Assign("_RET_VAL"@, ExprV::Variable("base"@), None)
}

/// What a call of a value procedure becomes: the call itself, then the copy
/// of its result into the temporary slot `t`, then the release of its frame.
pub open spec fn flatten_call(name: Seq<char>, args: Seq<ExprV>, t: int) -> Seq<StmtV> {
    seq![
        StmtV::Expr(ExprV::Call(name, args), None),
        stack_set_stmt(t, ram_cell("_RET_VAL"@, 0)),
        StmtV::Expr(ExprV::Call("sys_free"@, seq![ExprV::Variable("_RET_VAL"@)]), None),
    ]
}

/// The rewrite of an expression in context `c`: the new expression, the
/// statements that must run before it, and the context after it.
/// A local reads its frame cell; a call of a value procedure is hoisted into
/// statements and read back from a fresh temporary slot.
pub open spec fn p_expr(e: ExprV, c: CtxV) -> (ExprV, Seq<StmtV>, CtxV)
    decreases e,
{
    match e {
        ExprV::Variable(n) => {
            if c.locals.dom().contains(n) {
                (ram_cell("base"@, c.locals[n] as int), Seq::empty(), c)
            } else {
                (e, Seq::empty(), c)
            }
        },
        ExprV::Call(n, args) => {
            let r = p_args(args, c);
            if r.2.procs.contains(n) {
                (
                    ram_cell("base"@, r.2.offset),
                    r.1 + flatten_call(n, r.0, r.2.offset),
                    ctx_temp(r.2),
                )
            } else {
                (ExprV::Call(n, r.0), r.1, r.2)
            }
        },
        ExprV::BinOp(l, op, rr) => {
            let a = p_expr(*l, c);
            let b = p_expr(*rr, a.2);
            (ExprV::BinOp(Box::new(a.0), op, Box::new(b.0)), a.1 + b.1, b.2)
        },
        _ => (e, Seq::empty(), c),
    }
}

/// The rewrite of call arguments, left to right.
pub open spec fn p_args(args: Seq<ExprV>, c: CtxV) -> (Seq<ExprV>, Seq<StmtV>, CtxV)
    decreases args,
{
    if args.len() == 0 {
        (Seq::empty(), Seq::empty(), c)
    } else {
        let init = p_args(args.subrange(0, args.len() - 1), c);
        let last = p_expr(args[args.len() - 1], init.2);
        (init.0.push(last.0), init.1 + last.1, last.2)
    }
}

/// The offset restored after a nested block.
pub open spec fn restore(c: CtxV, offset: int) -> CtxV {
    CtxV { offset, ..c }
}

/// The rewrite of one statement in context `c`: the statements it becomes
/// and the context after it. `let` gets a frame slot, `return` stores into
/// slot 0 and publishes the frame, assignments to locals write their slot,
/// and each nested block is its own scope.
pub open spec fn t_stmt(s: StmtV, c: CtxV) -> (Seq<StmtV>, CtxV)
    decreases s,
{
    match s {
        StmtV::Let(n, e, _) => {
            let r = p_expr(e, ctx_define(c, n));
            (r.1.push(stack_set_stmt(c.offset, r.0)), r.2)
        },
        StmtV::Return(oe, _) => {
            let r = match oe {
                Some(e) => p_expr(e, c),
                None => (slot_num(0), Seq::empty(), c),
            };
            (r.1 + seq![stack_set_stmt(0, r.0), ret_base_stmt()], r.2)
        },
        StmtV::Assign(n, e, _) => {
            let r = p_expr(e, c);
            if r.2.locals.dom().contains(n) {
                (r.1.push(stack_set_stmt(r.2.locals[n] as int, r.0)), r.2)
            } else {
                (r.1.push(StmtV::Assign(n, r.0, None)), r.2)
            }
        },
        StmtV::Expr(e, _) => {
            let r = p_expr(e, c);
            (r.1.push(StmtV::Expr(r.0, None)), r.2)
        },
        StmtV::If(cond, t, oe, _) => {
            let r = p_expr(cond, c);
            let bt = t_stmts(t, ctx_enter(r.2));
            let c2 = restore(ctx_leave(bt.1), r.2.offset);
            match oe {
                Some(eb) => {
                    let be = t_stmts(eb, ctx_enter(c2));
                    (
                        r.1.push(StmtV::If(r.0, bt.0, Some(be.0), None)),
                        restore(ctx_leave(be.1), c2.offset),
                    )
                },
                None => (r.1.push(StmtV::If(r.0, bt.0, None, None)), c2),
            }
        },
        StmtV::Repeat(n, b, _) => {
            let r = p_expr(n, c);
            let bb = t_stmts(b, ctx_enter(r.2));
            (r.1.push(StmtV::Repeat(r.0, bb.0, None)), restore(ctx_leave(bb.1), r.2.offset))
        },
        StmtV::Forever(b, _) => {
            let bb = t_stmts(b, ctx_enter(c));
            (seq![StmtV::Forever(bb.0, None)], restore(ctx_leave(bb.1), c.offset))
        },
        StmtV::Until(cond, b, _) => {
            let r = p_expr(cond, c);
            let bb = t_stmts(b, ctx_enter(r.2));
            (r.1.push(StmtV::Until(r.0, bb.0, None)), restore(ctx_leave(bb.1), r.2.offset))
        },
        _ => (seq![s], c),
    }
}

/// The rewrite of a statement list, in order.
pub open spec fn t_stmts(s: Seq<StmtV>, c: CtxV) -> (Seq<StmtV>, CtxV)
    decreases s,
{
    if s.len() == 0 {
        (Seq::empty(), c)
    } else {
        let a = t_stmts(s.subrange(0, s.len() - 1), c);
        let b = t_stmt(s[s.len() - 1], a.1);
        (a.0 + b.0, b.1)
    }
}

// ---------------------------------------------------------------------------
// Sizes, which bound how many slots a rewrite can hand out
// ---------------------------------------------------------------------------

pub open spec fn e_size(e: ExprV) -> nat
    decreases e,
{
    match e {
        ExprV::Call(_, args) => 1 + es_size(args),
        ExprV::BinOp(l, _, r) => 1 + e_size(*l) + e_size(*r),
        _ => 1,
    }
}

pub open spec fn es_size(s: Seq<ExprV>) -> nat
    decreases s,
{
    if s.len() == 0 {
        0
    } else {
        es_size(s.subrange(0, s.len() - 1)) + e_size(s[s.len() - 1])
    }
}

pub open spec fn s_size(s: StmtV) -> nat
    decreases s,
{
    match s {
        StmtV::Let(_, e, _) => 1 + e_size(e),
        StmtV::Return(oe, _) => match oe {
            Some(e) => 1 + e_size(e),
            None => 1,
        },
        StmtV::Assign(_, e, _) => 1 + e_size(e),
        StmtV::Expr(e, _) => 1 + e_size(e),
        StmtV::If(cond, t, oe, _) => 1 + e_size(cond) + ss_size(t) + match oe {
            Some(eb) => ss_size(eb),
            None => 0,
        },
        StmtV::Repeat(n, b, _) => 1 + e_size(n) + ss_size(b),
        StmtV::Forever(b, _) => 1 + ss_size(b),
        StmtV::Until(cond, b, _) => 1 + e_size(cond) + ss_size(b),
        _ => 1,
    }
}

pub open spec fn ss_size(s: Seq<StmtV>) -> nat
    decreases s,
{
    if s.len() == 0 {
        0
    } else {
        ss_size(s.subrange(0, s.len() - 1)) + s_size(s[s.len() - 1])
    }
}

/// The largest frame offset the rewrite may reach.
pub open spec fn slot_limit() -> int {
    i32::MAX as int
}


// ---------------------------------------------------------------------------
// The rewrite of expressions and statements
// ---------------------------------------------------------------------------

proof fn lemma_es_size_prefix(s: Seq<ExprV>, i: int)
    requires
        0 <= i <= s.len(),
    ensures
        es_size(s.subrange(0, i)) <= es_size(s),
    decreases s.len() - i,
{
    if i < s.len() {
        lemma_es_size_prefix(s, i + 1);
        assert(s.subrange(0, i + 1).subrange(0, i) =~= s.subrange(0, i));
    } else {
        assert(s.subrange(0, i) =~= s);
    }
}

proof fn lemma_ss_size_prefix(s: Seq<StmtV>, i: int)
    requires
        0 <= i <= s.len(),
    ensures
        ss_size(s.subrange(0, i)) <= ss_size(s),
    decreases s.len() - i,
{
    if i < s.len() {
        lemma_ss_size_prefix(s, i + 1);
        assert(s.subrange(0, i + 1).subrange(0, i) =~= s.subrange(0, i));
    } else {
        assert(s.subrange(0, i) =~= s);
    }
}

/// The rewrite changes nothing in the context but the offset, which grows by
/// at most `n`.
pub open spec fn only_offset_grew(a: CtxV, b: CtxV, n: int) -> bool {
    &&& b.locals == a.locals
    &&& b.scopes == a.scopes
    &&& b.procs == a.procs
    &&& a.offset <= b.offset <= a.offset + n
}

pub(crate) fn lit(s: &str) -> (r: String)
    ensures
        r@ == s@,
{
    String::from_str(s)
}

pub(crate) fn push_expr(v: &mut Vec<Expr>, x: Expr)
    ensures
        exprs_view(final(v)@) == exprs_view(old(v)@).push(x@),
{
    proof {
        lemma_exprs_view_push(v@, x);
    }
    v.push(x);
}

pub(crate) fn push_stmt(v: &mut Vec<Stmt>, x: Stmt)
    ensures
        stmts_view(final(v)@) == stmts_view(old(v)@).push(x@),
{
    proof {
        lemma_stmts_view_push(v@, x);
    }
    v.push(x);
}

fn slot_expr(n: i32) -> (r: Expr)
    requires
        0 <= n,
    ensures
        r@ == slot_num(n as int),
{
    Expr::Number(NumLit { text: u64_decimal(n as u64) })
}

fn ram_cell_expr(ptr: &str, n: i32) -> (r: Expr)
    requires
        0 <= n,
    ensures
        r@ == ram_cell(ptr@, n as int),
{
    let mut args: Vec<Expr> = Vec::new();
    let a = Expr::String(lit("_RAM"));
    let p = Expr::Variable(lit(ptr));
    let k = slot_expr(n);
    assert(p@ == ExprV::Variable(ptr@));
    let b = Expr::BinOp(Box::new(p), Op::Add, Box::new(k));
    let ghost (av, bv) = (a@, b@);
    push_expr(&mut args, a);
    push_expr(&mut args, b);
    assert(exprs_view(args@) =~= seq![av, bv]);
    Expr::Call(lit("item_of_list"), args)
}

fn stack_set(n: i32, val: Expr) -> (r: Stmt)
    requires
        0 <= n,
    ensures
        r@ == stack_set_stmt(n as int, val@),
{
    let mut args: Vec<Expr> = Vec::new();
    let a = Expr::Variable(lit("base"));
    let b = slot_expr(n);
    let ghost (av, bv, cv) = (a@, b@, val@);
    push_expr(&mut args, a);
    push_expr(&mut args, b);
    push_expr(&mut args, val);
    assert(exprs_view(args@) =~= seq![av, bv, cv]);
    Stmt::Expr(Expr::Call(lit("stack_set"), args), None)
}

fn ret_base() -> (r: Stmt)
    ensures
        r@ == ret_base_stmt(),
{
    Stmt::Assign(lit("_RET_VAL"), Expr::Variable(lit("base")), None)
}

fn free_ret() -> (r: Stmt)
    ensures
        r@ == StmtV::Expr(ExprV::Call("sys_free"@, seq![ExprV::Variable("_RET_VAL"@)]), None),
{
    let mut args: Vec<Expr> = Vec::new();
    let a = Expr::Variable(lit("_RET_VAL"));
    let ghost av = a@;
    push_expr(&mut args, a);
    assert(exprs_view(args@) =~= seq![av]);
    Stmt::Expr(Expr::Call(lit("sys_free"), args), None)
}

/// Rewrites `expr`; the statements that must run first are appended to `pre`.
fn process_expr(expr: &Expr, pre: &mut Vec<Stmt>, ctx: &mut TransformContext) -> (r: Expr)
    requires
        old(ctx).wf(),
        old(ctx)@.offset + e_size(expr@) <= slot_limit(),
    ensures
        final(ctx).wf(),
        r@ == p_expr(expr@, old(ctx)@).0,
        stmts_view(final(pre)@) == stmts_view(old(pre)@) + p_expr(expr@, old(ctx)@).1,
        final(ctx)@ == p_expr(expr@, old(ctx)@).2,
        only_offset_grew(old(ctx)@, final(ctx)@, e_size(expr@) as int),
    decreases expr, 1nat,
{
    match expr {
        Expr::Variable(name) => {
            match ctx.get_local(name.as_str()) {
                Some(off) => ram_cell_expr("base", off),
                None => expr.duplicate(),
            }
        },
        Expr::Call(name, args) => {
            let new_args = process_args(args, pre, ctx);
            if ctx.is_value_proc(name.as_str()) {
                let ghost p0 = stmts_view(pre@);
                let ghost a = exprs_view(new_args@);
                push_stmt(pre, Stmt::Expr(Expr::Call(name.clone(), new_args), None));
                let t = ctx.define_temp();
                push_stmt(pre, stack_set(t, ram_cell_expr("_RET_VAL", 0)));
                push_stmt(pre, free_ret());
                assert(stmts_view(pre@) =~= p0 + flatten_call(name@, a, t as int));
                ram_cell_expr("base", t)
            } else {
                Expr::Call(name.clone(), new_args)
            }
        },
        Expr::BinOp(l, op, r) => {
            let a = process_expr(l, pre, ctx);
            let b = process_expr(r, pre, ctx);
            Expr::BinOp(Box::new(a), *op, Box::new(b))
        },
        _ => expr.duplicate(),
    }
}

fn process_args(args: &Vec<Expr>, pre: &mut Vec<Stmt>, ctx: &mut TransformContext) -> (r: Vec<Expr>)
    requires
        old(ctx).wf(),
        old(ctx)@.offset + es_size(exprs_view(args@)) <= slot_limit(),
    ensures
        final(ctx).wf(),
        exprs_view(r@) == p_args(exprs_view(args@), old(ctx)@).0,
        stmts_view(final(pre)@) == stmts_view(old(pre)@) + p_args(exprs_view(args@), old(ctx)@).1,
        final(ctx)@ == p_args(exprs_view(args@), old(ctx)@).2,
        only_offset_grew(old(ctx)@, final(ctx)@, es_size(exprs_view(args@)) as int),
    decreases args, 0nat,
{
    let ghost all = exprs_view(args@);
    proof {
        lemma_exprs_view(args@);
        assert(all.subrange(0, 0) =~= Seq::<ExprV>::empty());
        assert(stmts_view(old(pre)@) + Seq::<StmtV>::empty() =~= stmts_view(old(pre)@));
    }
    let mut out: Vec<Expr> = Vec::new();
    let mut i: usize = 0;
    while i < args.len()
        invariant
            i <= args.len(),
            all == exprs_view(args@),
            all.len() == args.len(),
            forall|k: int| 0 <= k < args.len() ==> #[trigger] all[k] == args@[k]@,
            old(ctx)@.offset + es_size(all) <= slot_limit(),
            ctx.wf(),
            exprs_view(out@) == p_args(all.subrange(0, i as int), old(ctx)@).0,
            stmts_view(pre@) == stmts_view(old(pre)@) + p_args(all.subrange(0, i as int), old(ctx)@).1,
            ctx@ == p_args(all.subrange(0, i as int), old(ctx)@).2,
            only_offset_grew(old(ctx)@, ctx@, es_size(all.subrange(0, i as int)) as int),
        decreases args.len() - i,
    {
        let ghost pre_i = all.subrange(0, i as int);
        let ghost next = all.subrange(0, i + 1);
        proof {
            assert(next.subrange(0, i as int) =~= pre_i);
            assert(next[i as int] == args@[i as int]@);
            lemma_es_size_prefix(all, i + 1);
        }
        let x = process_expr(&args[i], pre, ctx);
        push_expr(&mut out, x);
        i += 1;
    }
    assert(all.subrange(0, i as int) =~= all);
    out
}

/// Rewrites one statement.
fn transform_stmt(stmt: &Stmt, ctx: &mut TransformContext) -> (r: Vec<Stmt>)
    requires
        old(ctx).wf(),
        old(ctx)@.scopes.len() >= 1,
        old(ctx)@.offset + s_size(stmt@) <= slot_limit(),
    ensures
        final(ctx).wf(),
        stmts_view(r@) == t_stmt(stmt@, old(ctx)@).0,
        final(ctx)@ == t_stmt(stmt@, old(ctx)@).1,
        final(ctx)@.scopes.len() == old(ctx)@.scopes.len(),
        final(ctx)@.procs == old(ctx)@.procs,
        final(ctx)@.offset <= old(ctx)@.offset + s_size(stmt@),
    decreases stmt, 2nat,
{
    let mut pre: Vec<Stmt> = Vec::new();
    proof {
        assert(stmts_view(pre@) =~= Seq::<StmtV>::empty());
    }
    match stmt {
        Stmt::Let(name, e, _) => {
            let off = ctx.define_local(name.clone());
            let te = process_expr(e, &mut pre, ctx);
            push_stmt(&mut pre, stack_set(off, te));
            pre
        },
        Stmt::Return(oe, _) => {
            let rv = match oe {
                Some(e) => process_expr(e, &mut pre, ctx),
                None => slot_expr(0),
            };
            let ghost p0 = stmts_view(pre@);
            let ghost v = rv@;
            push_stmt(&mut pre, stack_set(0, rv));
            push_stmt(&mut pre, ret_base());
            assert(stmts_view(pre@) =~= p0 + seq![stack_set_stmt(0, v), ret_base_stmt()]);
            pre
        },
        Stmt::Assign(name, e, _) => {
            let te = process_expr(e, &mut pre, ctx);
            match ctx.get_local(name.as_str()) {
                Some(off) => push_stmt(&mut pre, stack_set(off, te)),
                None => push_stmt(&mut pre, Stmt::Assign(name.clone(), te, None)),
            }
            pre
        },
        Stmt::Expr(e, _) => {
            let te = process_expr(e, &mut pre, ctx);
            push_stmt(&mut pre, Stmt::Expr(te, None));
            pre
        },
        Stmt::If(cond, t, oe, _) => {
            let tc = process_expr(cond, &mut pre, ctx);
            let tt = transform_block(t, ctx);
            let te = match oe {
                Some(eb) => Some(transform_block(eb, ctx)),
                None => None,
            };
            push_stmt(&mut pre, Stmt::If(tc, tt, te, None));
            pre
        },
        Stmt::Repeat(n, b, _) => {
            let tn = process_expr(n, &mut pre, ctx);
            let tb = transform_block(b, ctx);
            push_stmt(&mut pre, Stmt::Repeat(tn, tb, None));
            pre
        },
        Stmt::Forever(b, _) => {
            let tb = transform_block(b, ctx);
            push_stmt(&mut pre, Stmt::Forever(tb, None));
            pre
        },
        Stmt::Until(cond, b, _) => {
            let tc = process_expr(cond, &mut pre, ctx);
            let tb = transform_block(b, ctx);
            push_stmt(&mut pre, Stmt::Until(tc, tb, None));
            pre
        },
        _ => {
            push_stmt(&mut pre, stmt.duplicate());
            pre
        },
    }
}

/// Rewrites a nested block in a scope of its own; the offset is restored
/// afterwards, so the block's slots are reused by what follows.
fn transform_block(b: &Vec<Stmt>, ctx: &mut TransformContext) -> (r: Vec<Stmt>)
    requires
        old(ctx).wf(),
        old(ctx)@.offset + ss_size(stmts_view(b@)) <= slot_limit(),
    ensures
        final(ctx).wf(),
        stmts_view(r@) == t_stmts(stmts_view(b@), ctx_enter(old(ctx)@)).0,
        final(ctx)@ == restore(
            ctx_leave(t_stmts(stmts_view(b@), ctx_enter(old(ctx)@)).1),
            old(ctx)@.offset,
        ),
        final(ctx)@.scopes.len() == old(ctx)@.scopes.len(),
        final(ctx)@.procs == old(ctx)@.procs,
        final(ctx)@.offset == old(ctx)@.offset,
    decreases b, 1nat,
{
    ctx.enter_scope();
    let saved = ctx.offset();
    let out = transform_stmts(b, ctx);
    ctx.leave_scope();
    ctx.set_offset(saved);
    out
}

/// Rewrites a statement list in the current scope.
fn transform_stmts(stmts: &Vec<Stmt>, ctx: &mut TransformContext) -> (r: Vec<Stmt>)
    requires
        old(ctx).wf(),
        old(ctx)@.scopes.len() >= 1,
        old(ctx)@.offset + ss_size(stmts_view(stmts@)) <= slot_limit(),
    ensures
        final(ctx).wf(),
        stmts_view(r@) == t_stmts(stmts_view(stmts@), old(ctx)@).0,
        final(ctx)@ == t_stmts(stmts_view(stmts@), old(ctx)@).1,
        final(ctx)@.scopes.len() == old(ctx)@.scopes.len(),
        final(ctx)@.procs == old(ctx)@.procs,
        final(ctx)@.offset <= old(ctx)@.offset + ss_size(stmts_view(stmts@)),
    decreases stmts, 0nat,
{
    let ghost all = stmts_view(stmts@);
    proof {
        lemma_stmts_view(stmts@);
        assert(all.subrange(0, 0) =~= Seq::<StmtV>::empty());
    }
    let mut out: Vec<Stmt> = Vec::new();
    proof {
        assert(stmts_view(out@) =~= Seq::<StmtV>::empty());
    }
    let mut i: usize = 0;
    while i < stmts.len()
        invariant
            i <= stmts.len(),
            all == stmts_view(stmts@),
            all.len() == stmts.len(),
            forall|k: int| 0 <= k < stmts.len() ==> #[trigger] all[k] == stmts@[k]@,
            old(ctx)@.offset + ss_size(all) <= slot_limit(),
            old(ctx)@.scopes.len() >= 1,
            ctx.wf(),
            stmts_view(out@) == t_stmts(all.subrange(0, i as int), old(ctx)@).0,
            ctx@ == t_stmts(all.subrange(0, i as int), old(ctx)@).1,
            ctx@.scopes.len() == old(ctx)@.scopes.len(),
            ctx@.procs == old(ctx)@.procs,
            ctx@.offset <= old(ctx)@.offset + ss_size(all.subrange(0, i as int)),
        decreases stmts.len() - i,
    {
        let ghost pre_i = all.subrange(0, i as int);
        let ghost next = all.subrange(0, i + 1);
        proof {
            assert(next.subrange(0, i as int) =~= pre_i);
            assert(next[i as int] == stmts@[i as int]@);
            lemma_ss_size_prefix(all, i + 1);
        }
        let mut part = transform_stmt(&stmts[i], ctx);
        proof {
            lemma_stmts_view_add(out@, part@);
        }
        out.append(&mut part);
        i += 1;
    }
    assert(all.subrange(0, i as int) =~= all);
    out
}


// ---------------------------------------------------------------------------
// Which procedures need a frame
// ---------------------------------------------------------------------------

/// A statement list declares a local or returns, at any depth.
pub open spec fn has_lr(s: StmtV) -> bool
    decreases s,
{
    match s {
        StmtV::Let(_, _, _) => true,
        StmtV::Return(_, _) => true,
        StmtV::If(_, t, oe, _) => has_lr_all(t) || match oe {
            Some(b) => has_lr_all(b),
            None => false,
        },
        StmtV::Repeat(_, b, _) => has_lr_all(b),
        StmtV::Forever(b, _) => has_lr_all(b),
        StmtV::Until(_, b, _) => has_lr_all(b),
        StmtV::Match(_, arms, d, _) => has_lr_arms(arms) || match d {
            Some(b) => has_lr_all(b),
            None => false,
        },
        StmtV::CBlock(_, _, b, _) => has_lr_all(b),
        _ => false,
    }
}

pub open spec fn has_lr_all(s: Seq<StmtV>) -> bool
    decreases s,
{
    if s.len() == 0 {
        false
    } else {
        has_lr_all(s.subrange(0, s.len() - 1)) || has_lr(s[s.len() - 1])
    }
}

pub open spec fn has_lr_arms(arms: Seq<(ExprV, Seq<StmtV>)>) -> bool
    decreases arms,
{
    if arms.len() == 0 {
        false
    } else {
        has_lr_arms(arms.subrange(0, arms.len() - 1)) || has_lr_all(arms[arms.len() - 1].1)
    }
}

/// The names called in an expression, in the order they are met: a call
/// before its arguments, the left operand before the right one.
pub open spec fn scan_expr(e: ExprV) -> Seq<Seq<char>>
    decreases e,
{
    match e {
        ExprV::Call(n, args) => seq![n] + scan_exprs(args),
        ExprV::BinOp(l, _, r) => scan_expr(*l) + scan_expr(*r),
        _ => Seq::empty(),
    }
}

pub open spec fn scan_exprs(s: Seq<ExprV>) -> Seq<Seq<char>>
    decreases s,
{
    if s.len() == 0 {
        Seq::empty()
    } else {
        scan_exprs(s.subrange(0, s.len() - 1)) + scan_expr(s[s.len() - 1])
    }
}

/// The names called in a statement, in order; `match` and C-blocks are not
/// looked into.
pub open spec fn scan_stmt(s: StmtV) -> Seq<Seq<char>>
    decreases s,
{
    match s {
        StmtV::Expr(e, _) => scan_expr(e),
        StmtV::Let(_, e, _) => scan_expr(e),
        StmtV::Assign(_, e, _) => scan_expr(e),
        StmtV::Return(oe, _) => match oe {
            Some(e) => scan_expr(e),
            None => Seq::empty(),
        },
        StmtV::If(c, t, oe, _) => scan_expr(c) + scan_stmts(t) + match oe {
            Some(b) => scan_stmts(b),
            None => Seq::empty(),
        },
        StmtV::Repeat(c, b, _) => scan_expr(c) + scan_stmts(b),
        StmtV::Forever(b, _) => scan_stmts(b),
        StmtV::Until(c, b, _) => scan_expr(c) + scan_stmts(b),
        _ => Seq::empty(),
    }
}

pub open spec fn scan_stmts(s: Seq<StmtV>) -> Seq<Seq<char>>
    decreases s,
{
    if s.len() == 0 {
        Seq::empty()
    } else {
        scan_stmts(s.subrange(0, s.len() - 1)) + scan_stmt(s[s.len() - 1])
    }
}

/// Some call in the body names a procedure of `vp`.
pub open spec fn calls_any(body: Seq<StmtV>, vp: Seq<Seq<char>>) -> bool {
    exists|i: int| 0 <= i < scan_stmts(body).len() && vp.contains(#[trigger] scan_stmts(body)[i])
}

pub open spec fn proc_needs_frame(p: ProcedureDefV, vp: Seq<Seq<char>>) -> bool {
    p.return_type is Some || has_lr_all(p.body) || calls_any(p.body, vp)
}

pub open spec fn func_needs_frame(f: FunctionV, vp: Seq<Seq<char>>) -> bool {
    has_lr_all(f.body) || calls_any(f.body, vp)
}

fn stmt_has_lr(s: &Stmt) -> (r: bool)
    ensures
        r == has_lr(s@),
    decreases s, 1nat,
{
    match s {
        Stmt::Let(_, _, _) => true,
        Stmt::Return(_, _) => true,
        Stmt::If(_, t, oe, _) => {
            if contains_let_or_return(t) {
                return true;
            }
            match oe {
                Some(b) => contains_let_or_return(b),
                None => false,
            }
        },
        Stmt::Repeat(_, b, _) => contains_let_or_return(b),
        Stmt::Forever(b, _) => contains_let_or_return(b),
        Stmt::Until(_, b, _) => contains_let_or_return(b),
        Stmt::Match(_, arms, d, _) => {
            if arms_have_lr(arms) {
                return true;
            }
            match d {
                Some(b) => contains_let_or_return(b),
                None => false,
            }
        },
        Stmt::CBlock(_, _, b, _) => contains_let_or_return(b),
        _ => false,
    }
}

fn arms_have_lr(arms: &Vec<(Expr, Vec<Stmt>)>) -> (r: bool)
    ensures
        r == has_lr_arms(arms_view(arms@)),
    decreases arms, 0nat,
{
    let ghost all = arms_view(arms@);
    proof {
        lemma_arms_view(arms@);
    }
    let mut i: usize = 0;
    while i < arms.len()
        invariant
            i <= arms.len(),
            all == arms_view(arms@),
            all.len() == arms.len(),
            forall|k: int| 0 <= k < arms.len() ==> #[trigger] all[k] == (arms@[k].0@, stmts_view(arms@[k].1@)),
            !has_lr_arms(all.subrange(0, i as int)),
        decreases arms.len() - i,
    {
        assert(all.subrange(0, i + 1).subrange(0, i as int) =~= all.subrange(0, i as int));
        if contains_let_or_return(&arms[i].1) {
            proof {
                lemma_lr_arms_prefix(all, i + 1);
            }
            return true;
        }
        i += 1;
    }
    assert(all.subrange(0, i as int) =~= all);
    false
}

proof fn lemma_lr_arms_prefix(s: Seq<(ExprV, Seq<StmtV>)>, i: int)
    requires
        0 <= i <= s.len(),
        has_lr_arms(s.subrange(0, i)),
    ensures
        has_lr_arms(s),
    decreases s.len() - i,
{
    if i < s.len() {
        assert(s.subrange(0, i + 1).subrange(0, i) =~= s.subrange(0, i));
        lemma_lr_arms_prefix(s, i + 1);
    } else {
        assert(s.subrange(0, i) =~= s);
    }
}

proof fn lemma_lr_all_prefix(s: Seq<StmtV>, i: int)
    requires
        0 <= i <= s.len(),
        has_lr_all(s.subrange(0, i)),
    ensures
        has_lr_all(s),
    decreases s.len() - i,
{
    if i < s.len() {
        assert(s.subrange(0, i + 1).subrange(0, i) =~= s.subrange(0, i));
        lemma_lr_all_prefix(s, i + 1);
    } else {
        assert(s.subrange(0, i) =~= s);
    }
}

/// Whether some statement, at any depth, declares a local or returns.
fn contains_let_or_return(stmts: &Vec<Stmt>) -> (r: bool)
    ensures
        r == has_lr_all(stmts_view(stmts@)),
    decreases stmts, 0nat,
{
    let ghost all = stmts_view(stmts@);
    proof {
        lemma_stmts_view(stmts@);
    }
    let mut i: usize = 0;
    while i < stmts.len()
        invariant
            i <= stmts.len(),
            all == stmts_view(stmts@),
            all.len() == stmts.len(),
            forall|k: int| 0 <= k < stmts.len() ==> #[trigger] all[k] == stmts@[k]@,
            !has_lr_all(all.subrange(0, i as int)),
        decreases stmts.len() - i,
    {
        assert(all.subrange(0, i + 1).subrange(0, i as int) =~= all.subrange(0, i as int));
        if stmt_has_lr(&stmts[i]) {
            proof {
                lemma_lr_all_prefix(all, i + 1);
            }
            return true;
        }
        i += 1;
    }
    assert(all.subrange(0, i as int) =~= all);
    false
}

pub(crate) fn push_name(calls: &mut Vec<String>, n: &String)
    ensures
        strs_view(final(calls)@) == strs_view(old(calls)@).push(n@),
{
    calls.push(n.clone());
    assert(strs_view(calls@) =~= strs_view(old(calls)@).push(n@));
}

fn scan_expr_for_calls(e: &Expr, calls: &mut Vec<String>)
    ensures
        strs_view(final(calls)@) == strs_view(old(calls)@) + scan_expr(e@),
    decreases e, 1nat,
{
    match e {
        Expr::Call(name, args) => {
            let ghost c0 = strs_view(calls@);
            push_name(calls, name);
            scan_args_for_calls(args, calls);
            assert(strs_view(calls@) =~= c0 + (seq![name@] + scan_exprs(exprs_view(args@))));
        },
        Expr::BinOp(l, _, r) => {
            scan_expr_for_calls(l, calls);
            scan_expr_for_calls(r, calls);
        },
        _ => {
            assert(strs_view(calls@) =~= strs_view(old(calls)@) + Seq::<Seq<char>>::empty());
        },
    }
}

fn scan_args_for_calls(args: &Vec<Expr>, calls: &mut Vec<String>)
    ensures
        strs_view(final(calls)@) == strs_view(old(calls)@) + scan_exprs(exprs_view(args@)),
    decreases args, 0nat,
{
    let ghost all = exprs_view(args@);
    proof {
        lemma_exprs_view(args@);
        assert(all.subrange(0, 0) =~= Seq::<ExprV>::empty());
        assert(strs_view(calls@) =~= strs_view(old(calls)@) + Seq::<Seq<char>>::empty());
    }
    let mut i: usize = 0;
    while i < args.len()
        invariant
            i <= args.len(),
            all == exprs_view(args@),
            all.len() == args.len(),
            forall|k: int| 0 <= k < args.len() ==> #[trigger] all[k] == args@[k]@,
            strs_view(calls@) == strs_view(old(calls)@) + scan_exprs(all.subrange(0, i as int)),
        decreases args.len() - i,
    {
        assert(all.subrange(0, i + 1).subrange(0, i as int) =~= all.subrange(0, i as int));
        scan_expr_for_calls(&args[i], calls);
        i += 1;
    }
    assert(all.subrange(0, i as int) =~= all);
}

fn scan_stmt_for_calls(s: &Stmt, calls: &mut Vec<String>)
    ensures
        strs_view(final(calls)@) == strs_view(old(calls)@) + scan_stmt(s@),
    decreases s, 1nat,
{
    match s {
        Stmt::Expr(e, _) => scan_expr_for_calls(e, calls),
        Stmt::Let(_, e, _) => scan_expr_for_calls(e, calls),
        Stmt::Assign(_, e, _) => scan_expr_for_calls(e, calls),
        Stmt::Return(Some(e), _) => scan_expr_for_calls(e, calls),
        Stmt::If(c, t, oe, _) => {
            scan_expr_for_calls(c, calls);
            scan_stmts_for_calls(t, calls);
            match oe {
                Some(b) => scan_stmts_for_calls(b, calls),
                None => {
                    assert(strs_view(calls@) =~= strs_view(calls@) + Seq::<Seq<char>>::empty());
                },
            }
        },
        Stmt::Repeat(c, b, _) => {
            scan_expr_for_calls(c, calls);
            scan_stmts_for_calls(b, calls);
        },
        Stmt::Forever(b, _) => scan_stmts_for_calls(b, calls),
        Stmt::Until(c, b, _) => {
            scan_expr_for_calls(c, calls);
            scan_stmts_for_calls(b, calls);
        },
        _ => {
            assert(strs_view(calls@) =~= strs_view(old(calls)@) + Seq::<Seq<char>>::empty());
        },
    }
}

/// Appends the names called in `stmts`, in order.
pub fn scan_stmts_for_calls(stmts: &Vec<Stmt>, calls: &mut Vec<String>)
    ensures
        strs_view(final(calls)@) == strs_view(old(calls)@) + scan_stmts(stmts_view(stmts@)),
    decreases stmts, 0nat,
{
    let ghost all = stmts_view(stmts@);
    proof {
        lemma_stmts_view(stmts@);
        assert(all.subrange(0, 0) =~= Seq::<StmtV>::empty());
        assert(strs_view(calls@) =~= strs_view(old(calls)@) + Seq::<Seq<char>>::empty());
    }
    let mut i: usize = 0;
    while i < stmts.len()
        invariant
            i <= stmts.len(),
            all == stmts_view(stmts@),
            all.len() == stmts.len(),
            forall|k: int| 0 <= k < stmts.len() ==> #[trigger] all[k] == stmts@[k]@,
            strs_view(calls@) == strs_view(old(calls)@) + scan_stmts(all.subrange(0, i as int)),
        decreases stmts.len() - i,
    {
        assert(all.subrange(0, i + 1).subrange(0, i as int) =~= all.subrange(0, i as int));
        scan_stmt_for_calls(&stmts[i], calls);
        i += 1;
    }
    assert(all.subrange(0, i as int) =~= all);
}

pub(crate) fn names_contain(names: &Vec<String>, n: &String) -> (r: bool)
    ensures
        r == strs_view(names@).contains(n@),
{
    let mut i: usize = 0;
    while i < names.len()
        invariant
            i <= names.len(),
            forall|j: int| 0 <= j < i ==> #[trigger] names@[j]@ != n@,
        decreases names.len() - i,
    {
        if str_eq(names[i].as_str(), n.as_str()) {
            assert(strs_view(names@)[i as int] == n@);
            return true;
        }
        i += 1;
    }
    assert forall|j: int| 0 <= j < strs_view(names@).len() implies #[trigger] strs_view(names@)[j] != n@ by {
        assert(strs_view(names@)[j] == names@[j]@);
    }
    false
}

/// Whether a call in `stmts` names one of `value_procs`.
fn contains_call_to_value_proc(stmts: &Vec<Stmt>, value_procs: &Vec<String>) -> (r: bool)
    ensures
        r == calls_any(stmts_view(stmts@), strs_view(value_procs@)),
{
    let mut calls: Vec<String> = Vec::new();
    scan_stmts_for_calls(stmts, &mut calls);
    let ghost sc = scan_stmts(stmts_view(stmts@));
    assert(strs_view(calls@) =~= sc);
    let mut i: usize = 0;
    while i < calls.len()
        invariant
            i <= calls.len(),
            sc == scan_stmts(stmts_view(stmts@)),
            strs_view(calls@) == sc,
            forall|j: int| 0 <= j < i ==> !strs_view(value_procs@).contains(#[trigger] sc[j]),
        decreases calls.len() - i,
    {
        assert(sc[i as int] == calls@[i as int]@);
        if names_contain(value_procs, &calls[i]) {
            assert(strs_view(calls@).len() == calls@.len());
            assert(strs_view(value_procs@).contains(sc[i as int]));
            assert(0 <= (i as int) < scan_stmts(stmts_view(stmts@)).len());
            return true;
        }
        i += 1;
    }
    false
}

fn should_transform_proc(p: &ProcedureDef, value_procs: &Vec<String>) -> (r: bool)
    ensures
        r == proc_needs_frame(p@, strs_view(value_procs@)),
{
    p.return_type.is_some() || contains_let_or_return(&p.body)
        || contains_call_to_value_proc(&p.body, value_procs)
}

fn should_transform_func(f: &Function, value_procs: &Vec<String>) -> (r: bool)
    ensures
        r == func_needs_frame(f@, strs_view(value_procs@)),
{
    contains_let_or_return(&f.body) || contains_call_to_value_proc(&f.body, value_procs)
}


// ---------------------------------------------------------------------------
// Splitting a procedure into a wrapper and a framed inner procedure
// ---------------------------------------------------------------------------

pub open spec fn inner_name(n: Seq<char>) -> Seq<char> {
    "_inner_"@ + n
}

/// The parameters, read as variables.
pub open spec fn param_vars(ps: Seq<ParamV>) -> Seq<ExprV> {
    ps.map_values(|p: ParamV| ExprV::Variable(p.name))
}

/// `sys_alloc();`
pub open spec fn alloc_stmt() -> StmtV {
    StmtV::Expr(ExprV::Call("sys_alloc"@, Seq::empty()), None)
}

/// `_inner_<n>(_RET_VAL, <params>...);`
pub open spec fn call_inner_stmt(n: Seq<char>, ps: Seq<ParamV>) -> StmtV {
    StmtV::Expr(
        ExprV::Call(inner_name(n), seq![ExprV::Variable("_RET_VAL"@)] + param_vars(ps)),
        None,
    )
}

/// `sys_free(_RET_VAL);`
pub open spec fn free_ret_stmt() -> StmtV {
    StmtV::Expr(ExprV::Call("sys_free"@, seq![ExprV::Variable("_RET_VAL"@)]), None)
}

/// The context a procedure body starts in.
pub open spec fn init_ctx(vp: Seq<Seq<char>>) -> CtxV {
    CtxV { offset: 1, locals: Map::empty(), scopes: seq![Seq::empty()], procs: vp }
}

/// The inner procedure: it takes the frame `base` first, runs the rewritten
/// body, and publishes its frame in `_RET_VAL`.
pub open spec fn inner_proc(
    name: Seq<char>,
    params: Seq<ParamV>,
    body: Seq<StmtV>,
    is_warp: bool,
    vp: Seq<Seq<char>>,
) -> ProcedureDefV {
    ProcedureDefV {
        name: inner_name(name),
        params: seq![ParamV { name: "base"@, ty: Type::Number }] + params,
        body: t_stmts(body, init_ctx(vp)).0.push(ret_base_stmt()),
        return_type: None,
        is_warp,
        format: None,
        comment: None,
    }
}

/// A procedure becomes a wrapper of the same name, which allocates a frame
/// and calls the inner procedure, followed by the inner procedure.
pub open spec fn split_proc(p: ProcedureDefV, vp: Seq<Seq<char>>) -> Seq<ItemV> {
    seq![
        ItemV::Procedure(ProcedureDefV {
            name: p.name,
            params: p.params,
            body: seq![alloc_stmt(), call_inner_stmt(p.name, p.params)],
            return_type: None,
            is_warp: p.is_warp,
            format: p.format,
            comment: p.comment,
        }),
        ItemV::Procedure(inner_proc(p.name, p.params, p.body, p.is_warp, vp)),
    ]
}

/// An event handler keeps its attributes; its body allocates a frame, calls
/// the inner procedure and frees the frame.
pub open spec fn split_func(f: FunctionV, vp: Seq<Seq<char>>) -> Seq<ItemV> {
    seq![
        ItemV::Function(FunctionV {
            name: f.name,
            attributes: f.attributes,
            params: f.params,
            body: seq![alloc_stmt(), call_inner_stmt(f.name, f.params), free_ret_stmt()],
            is_warp: f.is_warp,
            comment: f.comment,
        }),
        ItemV::Procedure(inner_proc(f.name, f.params, f.body, f.is_warp, vp)),
    ]
}

fn alloc_call() -> (r: Stmt)
    ensures
        r@ == alloc_stmt(),
{
    let args: Vec<Expr> = Vec::new();
    assert(exprs_view(args@) =~= Seq::<ExprV>::empty());
    Stmt::Expr(Expr::Call(lit("sys_alloc"), args), None)
}

fn call_inner(name: &String, params: &Vec<Param>) -> (r: Stmt)
    ensures
        r@ == call_inner_stmt(name@, params_view(params@)),
{
    let mut args: Vec<Expr> = Vec::new();
    let ghost pv = params_view(params@);
    push_expr(&mut args, Expr::Variable(lit("_RET_VAL")));
    let mut i: usize = 0;
    while i < params.len()
        invariant
            i <= params.len(),
            pv == params_view(params@),
            exprs_view(args@) == seq![ExprV::Variable("_RET_VAL"@)] + param_vars(pv.subrange(0, i as int)),
        decreases params.len() - i,
    {
        push_expr(&mut args, Expr::Variable(params[i].name.clone()));
        assert(param_vars(pv.subrange(0, i + 1)) =~= param_vars(pv.subrange(0, i as int)).push(
            ExprV::Variable(params@[i as int].name@),
        ));
        i += 1;
    }
    assert(pv.subrange(0, i as int) =~= pv);
    let mut n = lit("_inner_");
    n.append(name.as_str());
    Stmt::Expr(Expr::Call(n, args), None)
}

/// The body of the inner procedure, rewritten in a fresh context.
fn frame_body(body: &Vec<Stmt>, value_procs: &Vec<String>) -> (r: Vec<Stmt>)
    requires
        ss_size(stmts_view(body@)) < slot_limit(),
    ensures
        stmts_view(r@) == t_stmts(stmts_view(body@), init_ctx(strs_view(value_procs@))).0.push(
            ret_base_stmt(),
        ),
{
    let mut ctx = TransformContext::new(copy_strings(value_procs));
    let mut out = transform_stmts(body, &mut ctx);
    push_stmt(&mut out, ret_base());
    out
}

fn inner_params(params: &Vec<Param>) -> (r: Vec<Param>)
    ensures
        params_view(r@) == seq![ParamV { name: "base"@, ty: Type::Number }] + params_view(params@),
{
    let mut out: Vec<Param> = Vec::new();
    out.push(Param { name: lit("base"), ty: Type::Number });
    let mut rest = copy_params(params);
    let ghost a = out@;
    let ghost b = rest@;
    out.append(&mut rest);
    assert(params_view(a + b) =~= params_view(a) + params_view(b));
    assert(params_view(a) =~= seq![ParamV { name: "base"@, ty: Type::Number }]);
    out
}

pub(crate) fn push_item(v: &mut Vec<Item>, x: Item)
    ensures
        items_view(final(v)@) == items_view(old(v)@).push(x@),
{
    proof {
        lemma_items_view_push(v@, x);
    }
    v.push(x);
}

/// Replaces a procedure by its wrapper and its inner procedure.
fn transform_procedure(p: &ProcedureDef, value_procs: &Vec<String>, out: &mut Vec<Item>)
    requires
        ss_size(p@.body) < slot_limit(),
    ensures
        items_view(final(out)@) == items_view(old(out)@) + split_proc(p@, strs_view(value_procs@)),
{
    let mut wrapper_body: Vec<Stmt> = Vec::new();
    let a = alloc_call();
    let c = call_inner(&p.name, &p.params);
    let ghost (av, cv) = (a@, c@);
    push_stmt(&mut wrapper_body, a);
    push_stmt(&mut wrapper_body, c);
    assert(stmts_view(wrapper_body@) =~= seq![av, cv]);
    let format = match &p.format {
        Some(f) => Some((f.0.clone(), copy_strings(&f.1))),
        None => None,
    };
    let wrapper = ProcedureDef {
        name: p.name.clone(),
        params: copy_params(&p.params),
        body: wrapper_body,
        return_type: None,
        is_warp: p.is_warp,
        format,
        comment: copy_string_opt(&p.comment),
    };
    let ghost w = wrapper@;
    let mut iname = lit("_inner_");
    iname.append(p.name.as_str());
    let inner = ProcedureDef {
        name: iname,
        params: inner_params(&p.params),
        body: frame_body(&p.body, value_procs),
        return_type: None,
        is_warp: p.is_warp,
        format: None,
        comment: None,
    };
    let ghost iv = inner@;
    let ghost o = items_view(out@);
    push_item(out, Item::Procedure(wrapper));
    push_item(out, Item::Procedure(inner));
    assert(items_view(out@) =~= o + seq![ItemV::Procedure(w), ItemV::Procedure(iv)]);
}

/// Replaces an event handler by its framed wrapper and inner procedure.
fn transform_function(f: &Function, value_procs: &Vec<String>, out: &mut Vec<Item>)
    requires
        ss_size(f@.body) < slot_limit(),
    ensures
        items_view(final(out)@) == items_view(old(out)@) + split_func(f@, strs_view(value_procs@)),
{
    let mut wrapper_body: Vec<Stmt> = Vec::new();
    let a = alloc_call();
    let c = call_inner(&f.name, &f.params);
    let d = free_ret();
    let ghost (av, cv, dv) = (a@, c@, d@);
    push_stmt(&mut wrapper_body, a);
    push_stmt(&mut wrapper_body, c);
    push_stmt(&mut wrapper_body, d);
    assert(stmts_view(wrapper_body@) =~= seq![av, cv, dv]);
    let wrapper = Function {
        name: f.name.clone(),
        attributes: copy_attrs(&f.attributes),
        params: copy_params(&f.params),
        body: wrapper_body,
        is_warp: f.is_warp,
        comment: copy_string_opt(&f.comment),
    };
    let ghost w = wrapper@;
    let mut iname = lit("_inner_");
    iname.append(f.name.as_str());
    let inner = ProcedureDef {
        name: iname,
        params: inner_params(&f.params),
        body: frame_body(&f.body, value_procs),
        return_type: None,
        is_warp: f.is_warp,
        format: None,
        comment: None,
    };
    let ghost iv = inner@;
    let ghost o = items_view(out@);
    push_item(out, Item::Function(wrapper));
    push_item(out, Item::Procedure(inner));
    assert(items_view(out@) =~= o + seq![ItemV::Function(w), ItemV::Procedure(iv)]);
}


// ---------------------------------------------------------------------------
// The runtime that framed procedures rely on
// ---------------------------------------------------------------------------

pub open spec fn list_var_item(name: Seq<char>) -> ItemV {
    ItemV::Variable(VariableDeclV {
        name,
        ty: Type::List,
        init: ExprV::List(Seq::empty()),
        visibility: Visibility::Public,
        comment: None,
    })
}

pub open spec fn num_var_item(name: Seq<char>, init: int) -> ItemV {
    ItemV::Variable(VariableDeclV {
        name,
        ty: Type::Number,
        init: slot_num(init),
        visibility: Visibility::Public,
        comment: None,
    })
}

/// `length_of_list("_FREE_PAGES")`
pub open spec fn free_len() -> ExprV {
    ExprV::Call("length_of_list"@, seq![ExprV::String("_FREE_PAGES"@)])
}

/// `sys_alloc`: pops a free page into `_RET_VAL`, or grows `_RAM` by a page
/// of 16 cells at `_HIGH_WATER`.
pub open spec fn sys_alloc_proc() -> ProcedureDefV {
    ProcedureDefV {
        name: "sys_alloc"@,
        params: Seq::empty(),
        body: seq![
            StmtV::If(
                ExprV::BinOp(Box::new(free_len()), Op::Gt, Box::new(slot_num(0))),
                seq![
                    StmtV::Assign(
                        "_RET_VAL"@,
                        ExprV::Call("item_of_list"@, seq![ExprV::String("_FREE_PAGES"@), free_len()]),
                        None,
                    ),
                    StmtV::Expr(
                        ExprV::Call("delete_of_list"@, seq![ExprV::String("_FREE_PAGES"@), free_len()]),
                        None,
                    ),
                ],
                Some(
                    seq![
                        StmtV::Assign("_RET_VAL"@, ExprV::Variable("_HIGH_WATER"@), None),
                        StmtV::Assign(
                            "_HIGH_WATER"@,
                            ExprV::BinOp(
                                Box::new(ExprV::Variable("_HIGH_WATER"@)),
                                Op::Add,
                                Box::new(slot_num(16)),
                            ),
                            None,
                        ),
                        StmtV::Repeat(
                            slot_num(16),
                            seq![
                                StmtV::Expr(
                                    ExprV::Call("add_to_list"@, seq![ExprV::String("_RAM"@), slot_num(0)]),
                                    None,
                                ),
                            ],
                            None,
                        ),
                    ],
                ),
                None,
            ),
        ],
        return_type: None,
        is_warp: true,
        format: None,
        comment: None,
    }
}

/// `sys_free(ptr)`: returns a page to `_FREE_PAGES`.
pub open spec fn sys_free_proc() -> ProcedureDefV {
    ProcedureDefV {
        name: "sys_free"@,
        params: seq![ParamV { name: "ptr"@, ty: Type::Number }],
        body: seq![
            StmtV::Expr(
                ExprV::Call("add_to_list"@, seq![ExprV::String("_FREE_PAGES"@), ExprV::Variable("ptr"@)]),
                None,
            ),
        ],
        return_type: None,
        is_warp: true,
        format: None,
        comment: None,
    }
}

/// `stack_set(ptr, offset, val)`: writes cell `ptr + offset` of `_RAM`.
pub open spec fn stack_set_proc() -> ProcedureDefV {
    ProcedureDefV {
        name: "stack_set"@,
        params: seq![
            ParamV { name: "ptr"@, ty: Type::Number },
            ParamV { name: "offset"@, ty: Type::Number },
            ParamV { name: "val"@, ty: Type::Number },
        ],
        body: seq![
            StmtV::Expr(
                ExprV::Call(
                    "replace_item_of_list"@,
                    seq![
                        ExprV::String("_RAM"@),
                        ExprV::BinOp(
                            Box::new(ExprV::Variable("ptr"@)),
                            Op::Add,
                            Box::new(ExprV::Variable("offset"@)),
                        ),
                        ExprV::Variable("val"@),
                    ],
                ),
                None,
            ),
        ],
        return_type: None,
        is_warp: true,
        format: None,
        comment: None,
    }
}

/// The globals and helper procedures injected into a program that needs
/// frames and has no `_RAM` of its own.
pub open spec fn runtime_items() -> Seq<ItemV> {
    seq![
        list_var_item("_RAM"@),
        list_var_item("_FREE_PAGES"@),
        num_var_item("_HIGH_WATER"@, 1),
        num_var_item("_RET_VAL"@, 0),
        ItemV::Procedure(sys_alloc_proc()),
        ItemV::Procedure(sys_free_proc()),
        ItemV::Procedure(stack_set_proc()),
    ]
}

fn str_expr(s: &str) -> (r: Expr)
    ensures
        r@ == ExprV::String(s@),
{
    Expr::String(lit(s))
}

fn var_expr(s: &str) -> (r: Expr)
    ensures
        r@ == ExprV::Variable(s@),
{
    Expr::Variable(lit(s))
}

fn bin_expr(l: Expr, op: Op, r: Expr) -> (e: Expr)
    ensures
        e@ == ExprV::BinOp(Box::new(l@), op, Box::new(r@)),
{
    Expr::BinOp(Box::new(l), op, Box::new(r))
}

fn call1(name: &str, a: Expr) -> (r: Expr)
    ensures
        r@ == ExprV::Call(name@, seq![a@]),
{
    let mut args: Vec<Expr> = Vec::new();
    let ghost av = a@;
    push_expr(&mut args, a);
    assert(exprs_view(args@) =~= seq![av]);
    Expr::Call(lit(name), args)
}

fn call2(name: &str, a: Expr, b: Expr) -> (r: Expr)
    ensures
        r@ == ExprV::Call(name@, seq![a@, b@]),
{
    let mut args: Vec<Expr> = Vec::new();
    let ghost (av, bv) = (a@, b@);
    push_expr(&mut args, a);
    push_expr(&mut args, b);
    assert(exprs_view(args@) =~= seq![av, bv]);
    Expr::Call(lit(name), args)
}

fn call3(name: &str, a: Expr, b: Expr, c: Expr) -> (r: Expr)
    ensures
        r@ == ExprV::Call(name@, seq![a@, b@, c@]),
{
    let mut args: Vec<Expr> = Vec::new();
    let ghost (av, bv, cv) = (a@, b@, c@);
    push_expr(&mut args, a);
    push_expr(&mut args, b);
    push_expr(&mut args, c);
    assert(exprs_view(args@) =~= seq![av, bv, cv]);
    Expr::Call(lit(name), args)
}

fn free_len_expr() -> (r: Expr)
    ensures
        r@ == free_len(),
{
    call1("length_of_list", str_expr("_FREE_PAGES"))
}

fn stmts1(a: Stmt) -> (r: Vec<Stmt>)
    ensures
        stmts_view(r@) == seq![a@],
{
    let mut v: Vec<Stmt> = Vec::new();
    let ghost av = a@;
    push_stmt(&mut v, a);
    assert(stmts_view(v@) =~= seq![av]);
    v
}

fn stmts2(a: Stmt, b: Stmt) -> (r: Vec<Stmt>)
    ensures
        stmts_view(r@) == seq![a@, b@],
{
    let mut v: Vec<Stmt> = Vec::new();
    let ghost (av, bv) = (a@, b@);
    push_stmt(&mut v, a);
    push_stmt(&mut v, b);
    assert(stmts_view(v@) =~= seq![av, bv]);
    v
}

fn stmts3(a: Stmt, b: Stmt, c: Stmt) -> (r: Vec<Stmt>)
    ensures
        stmts_view(r@) == seq![a@, b@, c@],
{
    let mut v: Vec<Stmt> = Vec::new();
    let ghost (av, bv, cv) = (a@, b@, c@);
    push_stmt(&mut v, a);
    push_stmt(&mut v, b);
    push_stmt(&mut v, c);
    assert(stmts_view(v@) =~= seq![av, bv, cv]);
    v
}

fn num_param(name: &str) -> (r: Param)
    ensures
        r.name@ == name@,
        r.ty == Type::Number,
{
    Param { name: lit(name), ty: Type::Number }
}

fn global_var(name: &str, ty: Type, init: Expr) -> (r: Item)
    ensures
        r@ == ItemV::Variable(VariableDeclV {
            name: name@,
            ty,
            init: init@,
            visibility: Visibility::Public,
            comment: None,
        }),
{
    Item::Variable(VariableDecl {
        name: lit(name),
        ty,
        init,
        visibility: Visibility::Public,
        comment: None,
    })
}

fn helper_proc(name: &str, params: Vec<Param>, body: Vec<Stmt>) -> (r: Item)
    ensures
        r@ == ItemV::Procedure(ProcedureDefV {
            name: name@,
            params: params_view(params@),
            body: stmts_view(body@),
            return_type: None,
            is_warp: true,
            format: None,
            comment: None,
        }),
{
    Item::Procedure(ProcedureDef {
        name: lit(name),
        params,
        body,
        return_type: None,
        is_warp: true,
        format: None,
        comment: None,
    })
}

fn sys_alloc_item() -> (r: Item)
    ensures
        r@ == ItemV::Procedure(sys_alloc_proc()),
{
    let cond = bin_expr(free_len_expr(), Op::Gt, slot_expr(0));
    let then_b = stmts2(
        Stmt::Assign(
            lit("_RET_VAL"),
            call2("item_of_list", str_expr("_FREE_PAGES"), free_len_expr()),
            None,
        ),
        Stmt::Expr(call2("delete_of_list", str_expr("_FREE_PAGES"), free_len_expr()), None),
    );
    let grow = stmts1(Stmt::Expr(call2("add_to_list", str_expr("_RAM"), slot_expr(0)), None));
    let else_b = stmts3(
        Stmt::Assign(lit("_RET_VAL"), var_expr("_HIGH_WATER"), None),
        Stmt::Assign(
            lit("_HIGH_WATER"),
            bin_expr(var_expr("_HIGH_WATER"), Op::Add, slot_expr(16)),
            None,
        ),
        Stmt::Repeat(slot_expr(16), grow, None),
    );
    let body = stmts1(Stmt::If(cond, then_b, Some(else_b), None));
    let params: Vec<Param> = Vec::new();
    assert(params_view(params@) =~= Seq::<ParamV>::empty());
    helper_proc("sys_alloc", params, body)
}

fn sys_free_item() -> (r: Item)
    ensures
        r@ == ItemV::Procedure(sys_free_proc()),
{
    let body = stmts1(Stmt::Expr(call2("add_to_list", str_expr("_FREE_PAGES"), var_expr("ptr")), None));
    let mut params: Vec<Param> = Vec::new();
    params.push(num_param("ptr"));
    assert(params_view(params@) =~= seq![ParamV { name: "ptr"@, ty: Type::Number }]);
    helper_proc("sys_free", params, body)
}

fn stack_set_item() -> (r: Item)
    ensures
        r@ == ItemV::Procedure(stack_set_proc()),
{
    let body = stmts1(
        Stmt::Expr(
            call3(
                "replace_item_of_list",
                str_expr("_RAM"),
                bin_expr(var_expr("ptr"), Op::Add, var_expr("offset")),
                var_expr("val"),
            ),
            None,
        ),
    );
    let mut params: Vec<Param> = Vec::new();
    params.push(num_param("ptr"));
    params.push(num_param("offset"));
    params.push(num_param("val"));
    assert(params_view(params@) =~= seq![
        ParamV { name: "ptr"@, ty: Type::Number },
        ParamV { name: "offset"@, ty: Type::Number },
        ParamV { name: "val"@, ty: Type::Number },
    ]);
    helper_proc("stack_set", params, body)
}

fn runtime_into(out: &mut Vec<Item>)
    ensures
        items_view(final(out)@) == items_view(old(out)@) + runtime_items(),
{
    let ghost o = items_view(out@);
    let empty1: Vec<Expr> = Vec::new();
    let empty2: Vec<Expr> = Vec::new();
    assert(exprs_view(empty1@) =~= Seq::<ExprV>::empty());
    assert(exprs_view(empty2@) =~= Seq::<ExprV>::empty());
    push_item(out, global_var("_RAM", Type::List, Expr::List(empty1)));
    push_item(out, global_var("_FREE_PAGES", Type::List, Expr::List(empty2)));
    push_item(out, global_var("_HIGH_WATER", Type::Number, slot_expr(1)));
    push_item(out, global_var("_RET_VAL", Type::Number, slot_expr(0)));
    push_item(out, sys_alloc_item());
    push_item(out, sys_free_item());
    push_item(out, stack_set_item());
    assert(items_view(out@) =~= o + runtime_items());
}


// ---------------------------------------------------------------------------
// The frame pass over a program's items
// ---------------------------------------------------------------------------

/// The names of the runtime's helper procedures, which are never framed.
pub open spec fn is_helper_name(n: Seq<char>) -> bool {
    n == "sys_alloc"@ || n == "sys_free"@ || n == "stack_set"@
}

/// The procedures declared with a return type, helpers excepted, in order.
pub open spec fn value_procs(items: Seq<ItemV>) -> Seq<Seq<char>>
    decreases items.len(),
{
    if items.len() == 0 {
        Seq::empty()
    } else {
        let r = value_procs(items.subrange(0, items.len() - 1));
        match items[items.len() - 1] {
            ItemV::Procedure(p) => if !is_helper_name(p.name) && p.return_type is Some {
                r.push(p.name)
            } else {
                r
            },
            _ => r,
        }
    }
}

pub open spec fn item_needs_frame(i: ItemV, vp: Seq<Seq<char>>) -> bool {
    match i {
        ItemV::Procedure(p) => proc_needs_frame(p, vp),
        ItemV::Function(f) => func_needs_frame(f, vp),
        _ => false,
    }
}

pub open spec fn any_needs_frame(items: Seq<ItemV>, vp: Seq<Seq<char>>) -> bool {
    exists|i: int| 0 <= i < items.len() && item_needs_frame(#[trigger] items[i], vp)
}

/// Whether the program declares a variable named `_RAM`.
pub open spec fn has_ram_var(items: Seq<ItemV>) -> bool {
    exists|i: int|
        0 <= i < items.len() && (#[trigger] items[i] matches ItemV::Variable(v) && v.name == "_RAM"@)
}

/// What one item becomes in the frame pass.
pub open spec fn t_item(i: ItemV, vp: Seq<Seq<char>>) -> Seq<ItemV> {
    match i {
        ItemV::Procedure(p) => if is_helper_name(p.name) {
            seq![i]
        } else if proc_needs_frame(p, vp) {
            split_proc(p, vp)
        } else {
            seq![i]
        },
        ItemV::Function(f) => if func_needs_frame(f, vp) {
            split_func(f, vp)
        } else {
            seq![i]
        },
        _ => seq![i],
    }
}

pub open spec fn t_items(items: Seq<ItemV>, vp: Seq<Seq<char>>) -> Seq<ItemV>
    decreases items.len(),
{
    if items.len() == 0 {
        Seq::empty()
    } else {
        t_items(items.subrange(0, items.len() - 1), vp) + t_item(items[items.len() - 1], vp)
    }
}

/// The frame pass: the runtime first, when it is needed and the program has
/// no `_RAM` of its own, then each item rewritten in order.
pub open spec fn frame_pass(items: Seq<ItemV>, has_ram: bool) -> Seq<ItemV> {
    let vp = value_procs(items);
    (if !has_ram && any_needs_frame(items, vp) {
        runtime_items()
    } else {
        Seq::empty()
    }) + t_items(items, vp)
}

/// Each procedure and handler body is small enough for its frame offsets to
/// fit in an `i32`.
pub open spec fn item_fits(i: ItemV) -> bool {
    match i {
        ItemV::Procedure(p) => ss_size(p.body) < slot_limit(),
        ItemV::Function(f) => ss_size(f.body) < slot_limit(),
        _ => true,
    }
}

pub open spec fn items_fit(items: Seq<ItemV>) -> bool {
    forall|i: int| 0 <= i < items.len() ==> item_fits(#[trigger] items[i])
}

/// Whether `name` is one of the runtime's helper procedures.
pub fn is_helper(name: &str) -> (r: bool)
    ensures
        r == is_helper_name(name@),
{
    str_eq(name, "sys_alloc") || str_eq(name, "sys_free") || str_eq(name, "stack_set")
}

fn collect_value_procs(items: &Vec<Item>) -> (r: Vec<String>)
    ensures
        strs_view(r@) == value_procs(items_view(items@)),
{
    let ghost all = items_view(items@);
    proof {
        lemma_items_view(items@);
    }
    let mut out: Vec<String> = Vec::new();
    let mut i: usize = 0;
    assert(strs_view(out@) =~= value_procs(all.subrange(0, 0)));
    while i < items.len()
        invariant
            i <= items.len(),
            all == items_view(items@),
            all.len() == items.len(),
            forall|k: int| 0 <= k < items.len() ==> #[trigger] all[k] == items@[k]@,
            strs_view(out@) == value_procs(all.subrange(0, i as int)),
        decreases items.len() - i,
    {
        assert(all.subrange(0, i + 1).subrange(0, i as int) =~= all.subrange(0, i as int));
        match &items[i] {
            Item::Procedure(p) => {
                if !is_helper(p.name.as_str()) && p.return_type.is_some() {
                    push_name(&mut out, &p.name);
                }
            },
            _ => {},
        }
        i += 1;
    }
    assert(all.subrange(0, i as int) =~= all);
    out
}

fn program_has_ram(items: &Vec<Item>) -> (r: bool)
    ensures
        r == has_ram_var(items_view(items@)),
{
    let ghost all = items_view(items@);
    proof {
        lemma_items_view(items@);
    }
    let mut i: usize = 0;
    while i < items.len()
        invariant
            i <= items.len(),
            all == items_view(items@),
            all.len() == items.len(),
            forall|k: int| 0 <= k < items.len() ==> #[trigger] all[k] == items@[k]@,
            forall|k: int| 0 <= k < i ==> !(#[trigger] all[k] matches ItemV::Variable(v) && v.name == "_RAM"@),
        decreases items.len() - i,
    {
        match &items[i] {
            Item::Variable(v) => {
                if str_eq(v.name.as_str(), "_RAM") {
                    assert(all[i as int] matches ItemV::Variable(v) && v.name == "_RAM"@);
                    return true;
                }
            },
            _ => {},
        }
        i += 1;
    }
    false
}

fn any_item_needs_frame(items: &Vec<Item>, vp: &Vec<String>) -> (r: bool)
    ensures
        r == any_needs_frame(items_view(items@), strs_view(vp@)),
{
    let ghost all = items_view(items@);
    proof {
        lemma_items_view(items@);
    }
    let mut i: usize = 0;
    while i < items.len()
        invariant
            i <= items.len(),
            all == items_view(items@),
            all.len() == items.len(),
            forall|k: int| 0 <= k < items.len() ==> #[trigger] all[k] == items@[k]@,
            forall|k: int| 0 <= k < i ==> !item_needs_frame(#[trigger] all[k], strs_view(vp@)),
        decreases items.len() - i,
    {
        let needs = match &items[i] {
            Item::Procedure(p) => should_transform_proc(p, vp),
            Item::Function(f) => should_transform_func(f, vp),
            _ => false,
        };
        if needs {
            assert(item_needs_frame(all[i as int], strs_view(vp@)));
            return true;
        }
        i += 1;
    }
    false
}

pub(crate) fn copy_item_into(out: &mut Vec<Item>, it: &Item)
    ensures
        items_view(final(out)@) == items_view(old(out)@) + seq![it@],
{
    let ghost o = items_view(out@);
    push_item(out, it.duplicate());
    assert(items_view(out@) =~= o + seq![it@]);
}

/// The frame pass over `items`; `has_ram` tells whether the program already
/// declares `_RAM`.
fn frame_items(items: &Vec<Item>, has_ram: bool) -> (r: Vec<Item>)
    requires
        items_fit(items_view(items@)),
    ensures
        items_view(r@) == frame_pass(items_view(items@), has_ram),
{
    let ghost all = items_view(items@);
    proof {
        lemma_items_view(items@);
    }
    let value_procs = collect_value_procs(items);
    let ghost vp = strs_view(value_procs@);
    let needs_transform = any_item_needs_frame(items, &value_procs);
    let mut out: Vec<Item> = Vec::new();
    if !has_ram && needs_transform {
        runtime_into(&mut out);
    }
    let ghost head = items_view(out@);
    assert(head =~= (if !has_ram && any_needs_frame(all, vp) {
        runtime_items()
    } else {
        Seq::empty()
    }));
    assert(head + t_items(all.subrange(0, 0), vp) =~= head);
    let mut i: usize = 0;
    while i < items.len()
        invariant
            i <= items.len(),
            all == items_view(items@),
            all.len() == items.len(),
            forall|k: int| 0 <= k < items.len() ==> #[trigger] all[k] == items@[k]@,
            items_fit(all),
            vp == strs_view(value_procs@),
            items_view(out@) == head + t_items(all.subrange(0, i as int), vp),
        decreases items.len() - i,
    {
        assert(all.subrange(0, i + 1).subrange(0, i as int) =~= all.subrange(0, i as int));
        assert(item_fits(all[i as int]));
        let ghost before = items_view(out@);
        match &items[i] {
            Item::Procedure(p) => {
                if is_helper(p.name.as_str()) {
                    copy_item_into(&mut out, &items[i]);
                } else if should_transform_proc(p, &value_procs) {
                    transform_procedure(p, &value_procs, &mut out);
                } else {
                    copy_item_into(&mut out, &items[i]);
                }
            },
            Item::Function(f) => {
                if should_transform_func(f, &value_procs) {
                    transform_function(f, &value_procs, &mut out);
                } else {
                    copy_item_into(&mut out, &items[i]);
                }
            },
            _ => {
                copy_item_into(&mut out, &items[i]);
            },
        }
        assert(items_view(out@) == before + t_item(all[i as int], vp));
        i += 1;
    }
    assert(all.subrange(0, i as int) =~= all);
    out
}


// ---------------------------------------------------------------------------
// The whole rewrite of a program
// ---------------------------------------------------------------------------

/// What `transform_program` makes of a program's items: linking, then the
/// frame pass; and the id counter after linking.
pub open spec fn transform_spec(items: Seq<ItemV>, pkgs: Seq<PackageV>, id: nat) -> (Seq<ItemV>, nat) {
    let l = link(items, pkgs, id);
    (frame_pass(l.0, has_ram_var(items)), l.1)
}

/// Links the package procedures the program calls (named from `next_id` on),
/// drops `use` declarations, and gives procedures that need one a stack
/// frame in `_RAM`, injecting the runtime when the program has none.
pub fn transform_program(program: &mut Program, packages: &Vec<Package>, next_id: &mut u64)
    requires
        items_fit(old(program)@.items),
        pkgs_fit(pkgs_view(packages@)),
        *old(next_id) + count_pkgs(pkgs_view(packages@), Seq::empty()) <= u64::MAX,
    ensures
        final(program)@.items == transform_spec(
            old(program)@.items,
            pkgs_view(packages@),
            *old(next_id) as nat,
        ).0,
        *final(next_id) as nat == transform_spec(
            old(program)@.items,
            pkgs_view(packages@),
            *old(next_id) as nat,
        ).1,
{
    let has_ram = program_has_ram(&program.items);
    let linked = link_packages(&program.items, packages, next_id);
    program.items = frame_items(&linked, has_ram);
}


// ---------------------------------------------------------------------------
// Laws of the program rewrite
// ---------------------------------------------------------------------------

proof fn lemma_drop_uses_clean(s: Seq<ItemV>)
    ensures
        forall|k: int| 0 <= k < drop_uses(s).len() ==> !(#[trigger] drop_uses(s)[k] is Use),
    decreases s.len(),
{
    if s.len() > 0 {
        lemma_drop_uses_clean(s.subrange(0, s.len() - 1));
    }
}

proof fn lemma_t_items_clean(s: Seq<ItemV>, vp: Seq<Seq<char>>)
    requires
        forall|k: int| 0 <= k < s.len() ==> !(#[trigger] s[k] is Use),
    ensures
        forall|k: int| 0 <= k < t_items(s, vp).len() ==> !(#[trigger] t_items(s, vp)[k] is Use),
    decreases s.len(),
{
    if s.len() > 0 {
        let init = s.subrange(0, s.len() - 1);
        assert forall|k: int| 0 <= k < init.len() implies !(#[trigger] init[k] is Use) by {
            assert(init[k] == s[k]);
        }
        lemma_t_items_clean(init, vp);
        let a = t_items(init, vp);
        let b = t_item(s[s.len() - 1], vp);
        assert forall|k: int| 0 <= k < (a + b).len() implies !(#[trigger] (a + b)[k] is Use) by {
            if k >= a.len() {
                assert((a + b)[k] == b[k - a.len()]);
            }
        }
    }
}

/// No `use` declaration is left in a transformed program.
pub proof fn law_no_use_survives(items: Seq<ItemV>, pkgs: Seq<PackageV>, id: nat)
    ensures
        forall|k: int|
            0 <= k < transform_spec(items, pkgs, id).0.len() ==> !(
            #[trigger] transform_spec(items, pkgs, id).0[k] is Use),
{
    let l = link(items, pkgs, id).0;
    lemma_drop_uses_clean(
        items.map_values(|i: ItemV| rename_item(i, merge_run(merge_start(items, id), pkgs).mapping))
            + merge_run(merge_start(items, id), pkgs).merged.map_values(
            |p: ProcedureDefV| ItemV::Procedure(rename_proc(p, merge_run(merge_start(items, id), pkgs).mapping)),
        ),
    );
    let vp = value_procs(l);
    lemma_t_items_clean(l, vp);
    let h = if !has_ram_var(items) && any_needs_frame(l, vp) {
        runtime_items()
    } else {
        Seq::empty()
    };
    let t = t_items(l, vp);
    assert forall|k: int| 0 <= k < (h + t).len() implies !(#[trigger] (h + t)[k] is Use) by {
        if k >= h.len() {
            assert((h + t)[k] == t[k - h.len()]);
        }
    }
}

proof fn lemma_merge_run_no_pkgs(st: MergeState)
    ensures
        merge_run(st, Seq::empty()) == (MergeState { pending: Seq::empty(), ..st }),
    decreases st.pending.len(),
{
    if st.pending.len() == 0 {
        assert(st.pending =~= Seq::<Seq<char>>::empty());
    } else {
        let nx = crate::merge::merge_step(st, Seq::empty());
        assert(find_pkg(Seq::<PackageV>::empty(), Seq::<char>::empty()) is None);
        assert(nx == (MergeState { pending: st.pending.drop_last(), ..st }));
        lemma_merge_run_no_pkgs(nx);
    }
}

proof fn lemma_r_expr_empty(e: ExprV)
    ensures
        r_expr(e, Seq::empty()) == e,
    decreases e,
{
    match e {
        ExprV::Call(_, args) => lemma_r_exprs_empty(args),
        ExprV::BinOp(l, _, r) => {
            lemma_r_expr_empty(*l);
            lemma_r_expr_empty(*r);
        },
        _ => {},
    }
}

proof fn lemma_r_exprs_empty(s: Seq<ExprV>)
    ensures
        r_exprs(s, Seq::empty()) == s,
    decreases s,
{
    if s.len() > 0 {
        lemma_r_exprs_empty(s.subrange(0, s.len() - 1));
        lemma_r_expr_empty(s[s.len() - 1]);
        assert(s.subrange(0, s.len() - 1).push(s[s.len() - 1]) =~= s);
    }
}

proof fn lemma_r_stmt_empty(st: StmtV)
    ensures
        r_stmt(st, Seq::empty()) == st,
    decreases st,
{
    match st {
        StmtV::Expr(e, _) => lemma_r_expr_empty(e),
        StmtV::Let(_, e, _) => lemma_r_expr_empty(e),
        StmtV::Assign(_, e, _) => lemma_r_expr_empty(e),
        StmtV::Return(oe, _) => {
            if let Some(e) = oe {
                lemma_r_expr_empty(e);
            }
        },
        StmtV::If(c, t, oe, _) => {
            lemma_r_expr_empty(c);
            lemma_r_stmts_empty(t);
            if let Some(b) = oe {
                lemma_r_stmts_empty(b);
            }
        },
        StmtV::Repeat(n, b, _) => {
            lemma_r_expr_empty(n);
            lemma_r_stmts_empty(b);
        },
        StmtV::Forever(b, _) => lemma_r_stmts_empty(b),
        StmtV::Until(c, b, _) => {
            lemma_r_expr_empty(c);
            lemma_r_stmts_empty(b);
        },
        _ => {},
    }
}

proof fn lemma_r_stmts_empty(s: Seq<StmtV>)
    ensures
        r_stmts(s, Seq::empty()) == s,
    decreases s,
{
    if s.len() > 0 {
        lemma_r_stmts_empty(s.subrange(0, s.len() - 1));
        lemma_r_stmt_empty(s[s.len() - 1]);
        assert(s.subrange(0, s.len() - 1).push(s[s.len() - 1]) =~= s);
    }
}

/// Without packages, linking only drops the `use` declarations and leaves
/// the id counter alone.
pub proof fn law_link_without_packages(items: Seq<ItemV>, id: nat)
    ensures
        link(items, Seq::empty(), id) == (drop_uses(items), id),
{
    let st = merge_start(items, id);
    lemma_merge_run_no_pkgs(st);
    let m = Seq::<(Seq<char>, Seq<char>)>::empty();
    assert forall|k: int| 0 <= k < items.len() implies #[trigger] rename_item(items[k], m) == items[k] by {
        match items[k] {
            ItemV::Procedure(p) => {
                lemma_r_stmts_empty(p.body);
            },
            ItemV::Function(f) => {
                lemma_r_stmts_empty(f.body);
            },
            _ => {},
        }
    }
    let renamed = items.map_values(|i: ItemV| rename_item(i, m));
    assert(renamed =~= items);
    let merged = Seq::<ProcedureDefV>::empty().map_values(
        |p: ProcedureDefV| ItemV::Procedure(rename_proc(p, m)),
    );
    assert(renamed + merged =~= items);
}

proof fn lemma_t_items_identity(s: Seq<ItemV>, vp: Seq<Seq<char>>)
    requires
        forall|k: int| 0 <= k < s.len() ==> !item_needs_frame(#[trigger] s[k], vp),
    ensures
        t_items(s, vp) == s,
    decreases s.len(),
{
    if s.len() > 0 {
        let init = s.subrange(0, s.len() - 1);
        assert forall|k: int| 0 <= k < init.len() implies !item_needs_frame(#[trigger] init[k], vp) by {
            assert(init[k] == s[k]);
        }
        lemma_t_items_identity(init, vp);
        assert(!item_needs_frame(s[s.len() - 1], vp));
        assert(init + seq![s[s.len() - 1]] =~= s);
    }
}

/// A program in which no procedure or handler needs a frame goes through the
/// frame pass unchanged, and gets no runtime.
pub proof fn law_frame_pass_identity(items: Seq<ItemV>, has_ram: bool)
    requires
        !any_needs_frame(items, value_procs(items)),
    ensures
        frame_pass(items, has_ram) == items,
{
    let vp = value_procs(items);
    assert forall|k: int| 0 <= k < items.len() implies !item_needs_frame(#[trigger] items[k], vp) by {}
    lemma_t_items_identity(items, vp);
    assert(Seq::<ItemV>::empty() + items =~= items);
}

// ---------------------------------------------------------------------------
// Laws of the expression rewrite
// ---------------------------------------------------------------------------

/// `e` reads no local of the frame context `c` and calls none of the
/// procedures whose value goes through the frame.
pub open spec fn frame_free(e: ExprV, c: CtxV) -> bool
    decreases e,
{
    match e {
        ExprV::Variable(n) => !c.locals.dom().contains(n),
        ExprV::Call(n, args) => !c.procs.contains(n) && frame_free_all(args, c),
        ExprV::BinOp(l, _, r) => frame_free(*l, c) && frame_free(*r, c),
        _ => true,
    }
}

pub open spec fn frame_free_all(s: Seq<ExprV>, c: CtxV) -> bool
    decreases s,
{
    if s.len() == 0 {
        true
    } else {
        frame_free_all(s.subrange(0, s.len() - 1), c) && frame_free(s[s.len() - 1], c)
    }
}

/// The rewrite leaves an expression that reads no local and calls no
/// procedure for its value as it is: no statement goes before it, and the
/// context is unchanged.
pub proof fn law_rewrite_without_locals(e: ExprV, c: CtxV)
    requires
        frame_free(e, c),
    ensures
        p_expr(e, c) == (e, Seq::<StmtV>::empty(), c),
    decreases e,
{
    match e {
        ExprV::Call(n, args) => lemma_rewrite_args_without_locals(args, c),
        ExprV::BinOp(l, _, r) => {
            law_rewrite_without_locals(*l, c);
            law_rewrite_without_locals(*r, c);
            assert(Seq::<StmtV>::empty() + Seq::<StmtV>::empty() =~= Seq::<StmtV>::empty());
        },
        _ => {},
    }
}

proof fn lemma_rewrite_args_without_locals(s: Seq<ExprV>, c: CtxV)
    requires
        frame_free_all(s, c),
    ensures
        p_args(s, c) == (s, Seq::<StmtV>::empty(), c),
    decreases s,
{
    if s.len() > 0 {
        let init = s.subrange(0, s.len() - 1);
        lemma_rewrite_args_without_locals(init, c);
        law_rewrite_without_locals(s[s.len() - 1], c);
        assert(init.push(s[s.len() - 1]) =~= s);
        assert(Seq::<StmtV>::empty() + Seq::<StmtV>::empty() =~= Seq::<StmtV>::empty());
    }
}

/// A read of a frame slot: `item_of_list("_RAM", base + <k>)`.
pub open spec fn is_frame_read(e: ExprV) -> bool {
    exists|k: int| e == ram_cell("base"@, k)
}

/// `e2` is `e` with some variable reads and some calls replaced by frame
/// reads, and nothing else changed: every operator keeps its operands in
/// their places, and every other call its name and its arguments in order.
pub open spec fn rewrites_leaves_only(e: ExprV, e2: ExprV) -> bool
    decreases e,
{
    match e {
        ExprV::Variable(_) => e2 == e || is_frame_read(e2),
        ExprV::Call(n, args) => is_frame_read(e2) || (e2 is Call && e2->Call_0 == n
            && rewrites_leaves_only_all(args, e2->Call_1)),
        ExprV::BinOp(l, op, r) => e2 is BinOp && e2->BinOp_1 == op
            && rewrites_leaves_only(*l, *e2->BinOp_0) && rewrites_leaves_only(*r, *e2->BinOp_2),
        _ => e2 == e,
    }
}

pub open spec fn rewrites_leaves_only_all(s: Seq<ExprV>, s2: Seq<ExprV>) -> bool
    decreases s,
{
    &&& s2.len() == s.len()
    &&& s.len() > 0 ==> {
        &&& rewrites_leaves_only_all(s.subrange(0, s.len() - 1), s2.subrange(0, s2.len() - 1))
        &&& rewrites_leaves_only(s[s.len() - 1], s2[s2.len() - 1])
    }
}

/// The rewrite of an expression changes only its leaves: locals and calls
/// for a value become frame reads, while operators keep their operands in
/// order and other calls keep their name and the order of their arguments.
pub proof fn law_rewrite_keeps_shape(e: ExprV, c: CtxV)
    ensures
        rewrites_leaves_only(e, p_expr(e, c).0),
    decreases e,
{
    match e {
        ExprV::Variable(n) => {
            if c.locals.dom().contains(n) {
                assert(is_frame_read(p_expr(e, c).0)) by {
                    assert(p_expr(e, c).0 == ram_cell("base"@, c.locals[n] as int));
                }
            }
        },
        ExprV::Call(n, args) => {
            lemma_rewrite_args_keep_shape(args, c);
            let r = p_args(args, c);
            if r.2.procs.contains(n) {
                assert(is_frame_read(p_expr(e, c).0)) by {
                    assert(p_expr(e, c).0 == ram_cell("base"@, r.2.offset));
                }
            }
        },
        ExprV::BinOp(l, _, r) => {
            law_rewrite_keeps_shape(*l, c);
            law_rewrite_keeps_shape(*r, p_expr(*l, c).2);
        },
        _ => {},
    }
}

proof fn lemma_rewrite_args_keep_shape(s: Seq<ExprV>, c: CtxV)
    ensures
        rewrites_leaves_only_all(s, p_args(s, c).0),
    decreases s,
{
    if s.len() > 0 {
        let init = s.subrange(0, s.len() - 1);
        let q = p_args(s, c).0;
        lemma_rewrite_args_keep_shape(init, c);
        law_rewrite_keeps_shape(s[s.len() - 1], p_args(init, c).2);
        assert(q.subrange(0, q.len() - 1) =~= p_args(init, c).0);
    }
}

/// The rewrite of an expression keeps the locals, the scopes and the value
/// procedures of the context, and only moves the offset forward.
proof fn lemma_rewrite_context(e: ExprV, c: CtxV)
    ensures
        p_expr(e, c).2.locals == c.locals,
        p_expr(e, c).2.scopes == c.scopes,
        p_expr(e, c).2.procs == c.procs,
        p_expr(e, c).2.offset >= c.offset,
    decreases e,
{
    match e {
        ExprV::Call(n, args) => lemma_rewrite_args_context(args, c),
        ExprV::BinOp(l, _, r) => {
            lemma_rewrite_context(*l, c);
            lemma_rewrite_context(*r, p_expr(*l, c).2);
        },
        _ => {},
    }
}

proof fn lemma_rewrite_args_context(s: Seq<ExprV>, c: CtxV)
    ensures
        p_args(s, c).2.locals == c.locals,
        p_args(s, c).2.scopes == c.scopes,
        p_args(s, c).2.procs == c.procs,
        p_args(s, c).2.offset >= c.offset,
    decreases s,
{
    if s.len() > 0 {
        let init = s.subrange(0, s.len() - 1);
        lemma_rewrite_args_context(init, c);
        lemma_rewrite_context(s[s.len() - 1], p_args(init, c).2);
    }
}

/// A local is read from the slot its `let` writes: `let n = e;` ends by
/// storing the value into the slot at the offset it was declared at, and a
/// read of `n` after it reads that slot.
pub proof fn law_local_read_from_its_slot(n: Seq<char>, e: ExprV, cm: Option<Seq<char>>, c: CtxV)
    requires
        i32::MIN <= c.offset <= i32::MAX,
    ensures
        ({
            let r = t_stmt(StmtV::Let(n, e, cm), c);
            &&& r.0.len() > 0
            &&& r.0.last() == stack_set_stmt(c.offset, p_expr(e, ctx_define(c, n)).0)
            &&& p_expr(ExprV::Variable(n), r.1).0 == ram_cell("base"@, c.offset)
        }),
{
    lemma_rewrite_context(e, ctx_define(c, n));
}

/// A call of a value procedure is hoisted: the statements before the
/// expression call it with the rewritten arguments and store its result in
/// a fresh slot, at or past the offset of the context and never handed out
/// again, and the expression reads that slot.
pub proof fn law_value_call_read_back(n: Seq<char>, args: Seq<ExprV>, c: CtxV)
    requires
        c.procs.contains(n),
    ensures
        ({
            let p = p_expr(ExprV::Call(n, args), c);
            exists|t: int|
                c.offset <= t < p.2.offset && p.0 == ram_cell("base"@, t)
                    && p.1.contains(StmtV::Expr(ExprV::Call(n, p_args(args, c).0), None))
                    && p.1.contains(stack_set_stmt(t, ram_cell("_RET_VAL"@, 0)))
        }),
{
    lemma_rewrite_args_context(args, c);
    let r = p_args(args, c);
    let p = p_expr(ExprV::Call(n, args), c);
    let f = flatten_call(n, r.0, r.2.offset);
    assert(p.1 == r.1 + f);
    assert(p.1[r.1.len() as int] == f[0]);
    assert(p.1[r.1.len() + 1int] == f[1]);
    assert(c.offset <= r.2.offset < p.2.offset && p.0 == ram_cell("base"@, r.2.offset));
}

/// The number of calls of value procedures in `e` that the rewrite hoists:
/// those in operands of binary operators and in call arguments (the rewrite
/// does not look inside unary operators and lists).
pub open spec fn value_calls(e: ExprV, procs: Seq<Seq<char>>) -> nat
    decreases e,
{
    match e {
        ExprV::Call(n, args) => value_calls_all(args, procs) + if procs.contains(n) { 1nat } else { 0nat },
        ExprV::BinOp(l, _, r) => value_calls(*l, procs) + value_calls(*r, procs),
        _ => 0,
    }
}

pub open spec fn value_calls_all(s: Seq<ExprV>, procs: Seq<Seq<char>>) -> nat
    decreases s,
{
    if s.len() == 0 {
        0
    } else {
        value_calls_all(s.subrange(0, s.len() - 1), procs) + value_calls(s[s.len() - 1], procs)
    }
}

/// Each hoisted call takes one new frame slot and nothing else does: the
/// rewrite moves the offset by the number of value calls in the expression.
pub proof fn law_one_slot_per_value_call(e: ExprV, c: CtxV)
    ensures
        p_expr(e, c).2.offset == c.offset + value_calls(e, c.procs),
    decreases e,
{
    match e {
        ExprV::Call(n, args) => {
            lemma_slots_of_args(args, c);
            lemma_rewrite_args_context(args, c);
        },
        ExprV::BinOp(l, _, r) => {
            law_one_slot_per_value_call(*l, c);
            lemma_rewrite_context(*l, c);
            law_one_slot_per_value_call(*r, p_expr(*l, c).2);
        },
        _ => {},
    }
}

proof fn lemma_slots_of_args(s: Seq<ExprV>, c: CtxV)
    ensures
        p_args(s, c).2.offset == c.offset + value_calls_all(s, c.procs),
    decreases s,
{
    if s.len() > 0 {
        let init = s.subrange(0, s.len() - 1);
        lemma_slots_of_args(init, c);
        lemma_rewrite_args_context(init, c);
        law_one_slot_per_value_call(s[s.len() - 1], p_args(init, c).2);
    }
}

// ---------------------------------------------------------------------------
// Laws of the frame context
// ---------------------------------------------------------------------------

/// A local reads back the slot that its definition handed out.
pub proof fn law_define_then_get(c: CtxV, name: Seq<char>)
    ensures
        ctx_get(ctx_define(c, name), name) == Some(c.offset as i32),
{
}

/// Leaving a scope right after entering it restores the context.
pub proof fn law_leave_undoes_enter(c: CtxV)
    ensures
        ctx_leave(ctx_enter(c)) == c,
{
    assert(ctx_enter(c).scopes.last() =~= Seq::<Seq<char>>::empty());
    assert(ctx_enter(c).scopes.drop_last() =~= c.scopes);
}

/// A local declared in a scope is no longer visible once the scope is left.
pub proof fn law_local_dies_with_scope(c: CtxV, name: Seq<char>)
    ensures
        ctx_get(ctx_leave(ctx_define(ctx_enter(c), name)), name) is None,
{
    let d = ctx_define(ctx_enter(c), name);
    assert(d.scopes.last() =~= seq![name]);
    assert(seq![name].subrange(0, 0) =~= Seq::<Seq<char>>::empty());
}

/// Each slot handed out is distinct: a temporary and the local after it get
/// consecutive slots, and the offset only grows.
pub proof fn law_slots_are_fresh(c: CtxV, name: Seq<char>)
    ensures
        ctx_temp(c).offset == c.offset + 1,
        ctx_define(ctx_temp(c), name).locals[name] == (c.offset + 1) as i32,
        ctx_temp(c).locals == c.locals,
{
}


/// The context after `m` temporaries.
pub open spec fn ctx_temps(c: CtxV, m: nat) -> CtxV
    decreases m,
{
    if m == 0 {
        c
    } else {
        ctx_temp(ctx_temps(c, (m - 1) as nat))
    }
}

/// Successive temporaries get successive slots, so no two of them share
/// one, and they leave the locals alone.
pub proof fn law_temps_are_distinct(c: CtxV, m: nat)
    ensures
        ctx_temps(c, m).offset == c.offset + m,
        ctx_temps(c, m).locals == c.locals,
        forall|j: nat, k: nat| j < k <= m ==> ctx_temps(c, j).offset != ctx_temps(c, k).offset,
    decreases m,
{
    if m > 0 {
        law_temps_are_distinct(c, (m - 1) as nat);
    }
    assert forall|j: nat, k: nat| j < k <= m implies ctx_temps(c, j).offset != ctx_temps(c, k).offset by {
        lemma_temps_offset(c, j);
        lemma_temps_offset(c, k);
    }
}

proof fn lemma_temps_offset(c: CtxV, m: nat)
    ensures
        ctx_temps(c, m).offset == c.offset + m,
    decreases m,
{
    if m > 0 {
        lemma_temps_offset(c, (m - 1) as nat);
    }
}

/// The context after defining each of `names` in turn.
pub open spec fn ctx_define_all(c: CtxV, names: Seq<Seq<char>>) -> CtxV
    decreases names.len(),
{
    if names.len() == 0 {
        c
    } else {
        ctx_define(ctx_define_all(c, names.subrange(0, names.len() - 1)), names[names.len() - 1])
    }
}

proof fn lemma_define_all(c: CtxV, names: Seq<Seq<char>>)
    requires
        c.scopes.len() > 0,
    ensures
        ctx_define_all(c, names).scopes.len() == c.scopes.len(),
        ctx_define_all(c, names).scopes.drop_last() == c.scopes.drop_last(),
        ctx_define_all(c, names).scopes.last() == c.scopes.last() + names,
        forall|k: Seq<char>| #[trigger] ctx_define_all(c, names).locals.dom().contains(k) <==> (c.locals.dom().contains(k) || names.contains(k)),
        forall|k: Seq<char>| !names.contains(k) && c.locals.dom().contains(k) ==> #[trigger] ctx_define_all(c, names).locals[k] == c.locals[k],
    decreases names.len(),
{
    if names.len() > 0 {
        let init = names.subrange(0, names.len() - 1);
        lemma_define_all(c, init);
        let d = ctx_define_all(c, init);
        assert(d.scopes.update(d.scopes.len() - 1, d.scopes.last().push(names.last())).drop_last() =~= d.scopes.drop_last());
        assert(c.scopes.last() + names =~= (c.scopes.last() + init).push(names.last()));
        assert forall|k: Seq<char>| #[trigger] ctx_define_all(c, names).locals.dom().contains(k) <==> (c.locals.dom().contains(k) || names.contains(k)) by {
            if init.contains(k) {
                let j = choose|j: int| 0 <= j < init.len() && init[j] == k;
                assert(names[j] == k);
            }
            if names.contains(k) && k != names.last() {
                let j = choose|j: int| 0 <= j < names.len() && names[j] == k;
                assert(init[j] == k);
            }
        }
        assert forall|k: Seq<char>| !names.contains(k) && c.locals.dom().contains(k) implies #[trigger] ctx_define_all(c, names).locals[k] == c.locals[k] by {
            if init.contains(k) {
                let j = choose|j: int| 0 <= j < init.len() && init[j] == k;
                assert(names[j] == k);
            }
            assert(names[names.len() - 1] != k);
        }
    }
}

proof fn lemma_remove_all(m: Map<Seq<char>, i32>, vs: Seq<Seq<char>>)
    ensures
        forall|k: Seq<char>| #[trigger] remove_all(m, vs).dom().contains(k) <==> (m.dom().contains(k) && !vs.contains(k)),
        forall|k: Seq<char>| #[trigger] remove_all(m, vs).dom().contains(k) ==> remove_all(m, vs)[k] == m[k],
    decreases vs.len(),
{
    if vs.len() > 0 {
        let init = vs.subrange(0, vs.len() - 1);
        lemma_remove_all(m, init);
        assert forall|k: Seq<char>| #[trigger] remove_all(m, vs).dom().contains(k) <==> (m.dom().contains(k) && !vs.contains(k)) by {
            assert(remove_all(m, init).dom().contains(k) <==> (m.dom().contains(k) && !init.contains(k)));
            if init.contains(k) {
                let j = choose|j: int| 0 <= j < init.len() && init[j] == k;
                assert(vs[j] == k);
            }
            if vs.contains(k) && k != vs.last() {
                let j = choose|j: int| 0 <= j < vs.len() && vs[j] == k;
                assert(init[j] == k);
            }
        }
        assert forall|k: Seq<char>| #[trigger] remove_all(m, vs).dom().contains(k) implies remove_all(m, vs)[k] == m[k] by {
            assert(remove_all(m, init).dom().contains(k));
        }
    }
}

/// Leaving a scope restores the locals that were visible before it was
/// entered, however many new names were defined in it.
pub proof fn law_leave_restores_locals(c: CtxV, names: Seq<Seq<char>>)
    requires
        forall|k: Seq<char>| names.contains(k) ==> !c.locals.dom().contains(k),
    ensures
        ctx_leave(ctx_define_all(ctx_enter(c), names)).locals == c.locals,
        ctx_leave(ctx_define_all(ctx_enter(c), names)).scopes == c.scopes,
{
    let e = ctx_enter(c);
    lemma_define_all(e, names);
    let d = ctx_define_all(e, names);
    assert(e.scopes.last() + names =~= names);
    assert(e.scopes.drop_last() =~= c.scopes);
    lemma_remove_all(d.locals, names);
    assert(remove_all(d.locals, names) =~= c.locals);
}

// ---------------------------------------------------------------------------
// Checking the size limits before a rewrite
// ---------------------------------------------------------------------------

/// Sizes are counted up to this cap, one past the largest frame offset.
pub open spec fn size_cap() -> nat {
    0x8000_0000nat
}

pub open spec fn capped(n: nat) -> nat {
    if n < size_cap() {
        n
    } else {
        size_cap()
    }
}

fn cap_add(a: u64, b: u64) -> (r: u64)
    requires
        a <= size_cap(),
        b <= size_cap(),
    ensures
        r == if a + b < size_cap() { a + b } else { size_cap() as int },
{
    if a + b < 0x8000_0000 {
        a + b
    } else {
        0x8000_0000
    }
}

fn expr_size_capped(e: &Expr) -> (r: u64)
    ensures
        r == capped(e_size(e@)),
    decreases e, 1nat,
{
    match e {
        Expr::Call(_, args) => {
            let a = exprs_size_capped(args);
            cap_add(1, a)
        },
        Expr::BinOp(l, _, r) => {
            let a = expr_size_capped(l);
            let b = expr_size_capped(r);
            let c = cap_add(1, a);
            cap_add(c, b)
        },
        _ => 1,
    }
}

fn exprs_size_capped(v: &Vec<Expr>) -> (r: u64)
    ensures
        r == capped(es_size(exprs_view(v@))),
    decreases v, 0nat,
{
    let mut acc: u64 = 0;
    let mut i: usize = 0;
    proof {
        lemma_exprs_view(v@);
    }
    while i < v.len()
        invariant
            i <= v.len(),
            exprs_view(v@).len() == v@.len(),
            forall|k: int| 0 <= k < v@.len() ==> #[trigger] exprs_view(v@)[k] == expr_view(v@[k]),
            acc == capped(es_size(exprs_view(v@).subrange(0, i as int))),
        decreases v.len() - i,
    {
        let ghost q = exprs_view(v@).subrange(0, i + 1);
        assert(q.subrange(0, i as int) =~= exprs_view(v@).subrange(0, i as int));
        assert(q[i as int] == expr_view(v@[i as int]));
        let x = expr_size_capped(&v[i]);
        acc = cap_add(acc, x);
        i += 1;
    }
    assert(exprs_view(v@).subrange(0, i as int) =~= exprs_view(v@));
    acc
}

fn stmt_size_capped(st: &Stmt) -> (r: u64)
    ensures
        r == capped(s_size(st@)),
    decreases st, 1nat,
{
    match st {
        Stmt::Let(_, e, _) => cap_add(1, expr_size_capped(e)),
        Stmt::Return(oe, _) => match oe {
            Some(e) => cap_add(1, expr_size_capped(e)),
            None => 1,
        },
        Stmt::Assign(_, e, _) => cap_add(1, expr_size_capped(e)),
        Stmt::Expr(e, _) => cap_add(1, expr_size_capped(e)),
        Stmt::If(cond, t, oe, _) => {
            let a = cap_add(1, expr_size_capped(cond));
            let b = cap_add(a, stmts_size_capped(t));
            match oe {
                Some(eb) => cap_add(b, stmts_size_capped(eb)),
                None => cap_add(b, 0),
            }
        },
        Stmt::Repeat(n, b, _) => {
            let a = cap_add(1, expr_size_capped(n));
            cap_add(a, stmts_size_capped(b))
        },
        Stmt::Forever(b, _) => cap_add(1, stmts_size_capped(b)),
        Stmt::Until(cond, b, _) => {
            let a = cap_add(1, expr_size_capped(cond));
            cap_add(a, stmts_size_capped(b))
        },
        _ => 1,
    }
}

fn stmts_size_capped(v: &Vec<Stmt>) -> (r: u64)
    ensures
        r == capped(ss_size(stmts_view(v@))),
    decreases v, 0nat,
{
    let mut acc: u64 = 0;
    let mut i: usize = 0;
    proof {
        lemma_stmts_view(v@);
    }
    while i < v.len()
        invariant
            i <= v.len(),
            stmts_view(v@).len() == v@.len(),
            forall|k: int| 0 <= k < v@.len() ==> #[trigger] stmts_view(v@)[k] == stmt_view(v@[k]),
            acc == capped(ss_size(stmts_view(v@).subrange(0, i as int))),
        decreases v.len() - i,
    {
        let ghost q = stmts_view(v@).subrange(0, i + 1);
        assert(q.subrange(0, i as int) =~= stmts_view(v@).subrange(0, i as int));
        assert(q[i as int] == stmt_view(v@[i as int]));
        let x = stmt_size_capped(&v[i]);
        acc = cap_add(acc, x);
        i += 1;
    }
    assert(stmts_view(v@).subrange(0, i as int) =~= stmts_view(v@));
    acc
}

/// Whether every procedure and script body of the items is small enough for
/// the frame rewrite (fewer than `i32::MAX` nodes).
pub fn items_within_limits(items: &Vec<Item>) -> (r: bool)
    ensures
        r == items_fit(items_view(items@)),
{
    proof {
        lemma_items_view(items@);
    }
    let mut i: usize = 0;
    while i < items.len()
        invariant
            i <= items.len(),
            items_view(items@).len() == items@.len(),
            forall|k: int| 0 <= k < items@.len() ==> #[trigger] items_view(items@)[k] == item_view(items@[k]),
            forall|k: int| 0 <= k < i ==> item_fits(#[trigger] items_view(items@)[k]),
        decreases items.len() - i,
    {
        let ghost iv = items_view(items@)[i as int];
        let ok = match &items[i] {
            Item::Procedure(p) => stmts_size_capped(&p.body) < 0x7fff_ffff,
            Item::Function(f) => stmts_size_capped(&f.body) < 0x7fff_ffff,
            _ => true,
        };
        if !ok {
            assert(!item_fits(iv));
            return false;
        }
        i += 1;
    }
    true
}

/// The number of procedures in the packages, or `None` where it exceeds
/// `u64::MAX`.
fn package_procedures(packages: &Vec<Package>) -> (r: Option<u64>)
    ensures
        match r {
            Some(n) => n == count_pkgs(pkgs_view(packages@), Seq::empty()),
            None => count_pkgs(pkgs_view(packages@), Seq::empty()) > u64::MAX,
        },
{
    let ghost pv = pkgs_view(packages@);
    let mut acc: u64 = 0;
    let mut i: usize = 0;
    while i < packages.len()
        invariant
            i <= packages.len(),
            pv == pkgs_view(packages@),
            pv.len() == packages@.len(),
            forall|k: int| 0 <= k < packages@.len() ==> #[trigger] pv[k] == packages@[k]@,
            acc == count_pkgs(pv.subrange(0, i as int), Seq::empty()),
        decreases packages.len() - i,
    {
        let ghost pre = pv.subrange(0, i as int);
        let ghost pk = pv[i as int];
        assert(pv.subrange(0, i + 1).subrange(0, i as int) =~= pre);
        let items = &packages[i].items;
        let ghost ivs = items_view(items@);
        proof {
            lemma_items_view(items@);
        }
        assert(pk.items == ivs);
        let mut j: usize = 0;
        let mut n: u64 = acc;
        while j < items.len()
            invariant
                j <= items.len(),
                ivs == items_view(items@),
                ivs.len() == items@.len(),
                forall|k: int| 0 <= k < items@.len() ==> #[trigger] ivs[k] == item_view(items@[k]),
                n == acc + count_items(pk.name, ivs.subrange(0, j as int), Seq::empty()),
                i < packages.len(),
                pv == pkgs_view(packages@),
                pv.len() == packages@.len(),
                pk == pv[i as int],
                pk.items == ivs,
                pre == pv.subrange(0, i as int),
                acc == count_pkgs(pre, Seq::empty()),
            decreases items.len() - j,
        {
            assert(ivs.subrange(0, j + 1).subrange(0, j as int) =~= ivs.subrange(0, j as int));
            match &items[j] {
                Item::Procedure(_) => {
                    if n == u64::MAX {
                        proof {
                            lemma_count_items_prefix(pk.name, ivs, j + 1);
                            lemma_count_pkgs_prefix(pv, i + 1);
                            assert(pv.subrange(0, i + 1).subrange(0, i as int) =~= pre);
                        }
                        return None;
                    }
                    n = n + 1;
                },
                _ => {},
            }
            j += 1;
        }
        assert(ivs.subrange(0, j as int) =~= ivs);
        acc = n;
        i += 1;
    }
    assert(pv.subrange(0, i as int) =~= pv);
    Some(acc)
}

proof fn lemma_count_items_prefix(pname: Seq<char>, items: Seq<ItemV>, j: int)
    requires
        0 <= j <= items.len(),
    ensures
        count_items(pname, items.subrange(0, j), Seq::empty()) <= count_items(pname, items, Seq::empty()),
    decreases items.len() - j,
{
    if j < items.len() {
        lemma_count_items_prefix(pname, items, j + 1);
        assert(items.subrange(0, j + 1).subrange(0, j) =~= items.subrange(0, j));
    } else {
        assert(items.subrange(0, j) =~= items);
    }
}

proof fn lemma_count_pkgs_prefix(pkgs: Seq<PackageV>, i: int)
    requires
        0 <= i <= pkgs.len(),
    ensures
        count_pkgs(pkgs.subrange(0, i), Seq::empty()) <= count_pkgs(pkgs, Seq::empty()),
    decreases pkgs.len() - i,
{
    if i < pkgs.len() {
        lemma_count_pkgs_prefix(pkgs, i + 1);
        assert(pkgs.subrange(0, i + 1).subrange(0, i) =~= pkgs.subrange(0, i));
    } else {
        assert(pkgs.subrange(0, i) =~= pkgs);
    }
}

/// Rewrites the program as [`transform_program`] does when the rewrite stays
/// within the machine's limits (every body under `i32::MAX` nodes, and the
/// counter able to name every package procedure); otherwise leaves the
/// program and the counter as they are and returns `false`.
pub fn transform_program_checked(program: &mut Program, packages: &Vec<Package>, next_id: &mut u64) -> (r:
    bool)
    ensures
        r == (items_fit(old(program)@.items) && pkgs_fit(pkgs_view(packages@)) && *old(next_id)
            + count_pkgs(pkgs_view(packages@), Seq::empty()) <= u64::MAX),
        r ==> final(program)@.items == transform_spec(
            old(program)@.items,
            pkgs_view(packages@),
            *old(next_id) as nat,
        ).0 && *final(next_id) as nat == transform_spec(
            old(program)@.items,
            pkgs_view(packages@),
            *old(next_id) as nat,
        ).1,
        !r ==> final(program)@ == old(program)@ && *final(next_id) == *old(next_id),
{
    if !items_within_limits(&program.items) {
        return false;
    }
    let ghost pv = pkgs_view(packages@);
    let mut i: usize = 0;
    while i < packages.len()
        invariant
            i <= packages.len(),
            pv == pkgs_view(packages@),
            pv.len() == packages@.len(),
            forall|k: int| 0 <= k < packages@.len() ==> #[trigger] pv[k] == packages@[k]@,
            forall|k: int| 0 <= k < i ==> items_fit(#[trigger] pv[k].items),
        decreases packages.len() - i,
    {
        if !items_within_limits(&packages[i].items) {
            assert(!items_fit(pv[i as int].items));
            return false;
        }
        i += 1;
    }
    let n = match package_procedures(packages) {
        Some(n) => n,
        None => {
            return false;
        },
    };
    if n > u64::MAX - *next_id {
        return false;
    }
    transform_program(program, packages, next_id);
    true
}

} // verus!
