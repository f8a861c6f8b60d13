//! The parser of Scrust source text: a recursive-descent parser over the
//! characters of the source, with ordered choice and backtracking.
//!
//! Each parsing function is specified by a spec function of the same shape,
//! from the text and a position to `None` (no parse) or the value parsed and
//! the position after it.
use vstd::prelude::*;
use crate::ast::{
    Expr, ExprV, Stmt, StmtV, Op, UnOp, Type, NumLit, Item, ItemV, Param, ParamV, Program,
    ProcedureDef, ProcedureDefV, Function, FunctionV, Attribute, AttributeV, VariableDecl,
    VariableDeclV, AssetDecl, AssetDeclV, Visibility, Package, PackageV,
};
use crate::text::{unicode_white_space, is_whitespace};
use crate::ast::{
    expr_view, exprs_view, lemma_exprs_view_push, stmt_view, stmts_view, lemma_stmts_view_push,
    arms_view, lemma_arms_view_push, opt_str_view, item_view, items_view, lemma_items_view_push,
    attrs_view, params_view, strs_view,
};
use crate::text::{str_eq, chars_of};
use crate::merge::{chars_range, string_of};

verus! {

broadcast use crate::text::lemma_add_assoc;

// ---------------------------------------------------------------------------
// Characters and layout
// ---------------------------------------------------------------------------

/// Space, tab, carriage return or line feed.
pub open spec fn is_ms(c: char) -> bool {
    c == ' ' || c == '\t' || c == '\r' || c == '\n'
}

pub open spec fn is_alpha(c: char) -> bool {
    ('a' <= c && c <= 'z') || ('A' <= c && c <= 'Z')
}

pub open spec fn is_digit(c: char) -> bool {
    '0' <= c && c <= '9'
}

pub open spec fn is_ident_char(c: char) -> bool {
    is_alpha(c) || is_digit(c) || c == '_'
}

/// `t` occurs in `s` at `i`.
pub open spec fn starts(s: Seq<char>, i: int, t: Seq<char>) -> bool {
    0 <= i && i + t.len() <= s.len() && s.subrange(i, i + t.len()) == t
}

/// The first line feed at or after `i`, or `s.len()`.
pub open spec fn line_end(s: Seq<char>, i: int) -> int
    decreases s.len() - i,
{
    if i < 0 || i >= s.len() {
        s.len() as int
    } else if s[i] == '\n' {
        i
    } else {
        line_end(s, i + 1)
    }
}

/// A `//` comment running to a line feed, which it includes. `//!` and
/// `///` are not such comments (`////` is).
pub open spec fn comment_end(s: Seq<char>, i: int) -> Option<int> {
    if starts(s, i, seq!['/', '/']) {
        let e = line_end(s, i + 2);
        let text = s.subrange(i + 2, e);
        if e < s.len() && !(text.len() > 0 && text[0] == '!') && (text.len() > 0 && text[0] == '/'
            ==> text.len() > 1 && text[1] == '/') {
            Some(e + 1)
        } else {
            None
        }
    } else {
        None
    }
}

/// The position after the layout (spaces, tabs, line breaks and `//`
/// comments) at `i`.
pub open spec fn skip_ws(s: Seq<char>, i: int) -> int
    decreases s.len() - i,
{
    if 0 <= i < s.len() && is_ms(s[i]) {
        skip_ws(s, i + 1)
    } else {
        match comment_end(s, i) {
            Some(j) => if j > i { skip_ws(s, j) } else { i },
            None => i,
        }
    }
}

/// The number of line breaks in the layout at `i`, counting a comment as
/// one.
pub open spec fn layout_lines(s: Seq<char>, i: int) -> nat
    decreases s.len() - i,
{
    if 0 <= i < s.len() && is_ms(s[i]) {
        (if s[i] == '\n' { 1nat } else { 0nat }) + layout_lines(s, i + 1)
    } else {
        match comment_end(s, i) {
            Some(j) => if j > i { 1 + layout_lines(s, j) } else { 0 },
            None => 0,
        }
    }
}

/// `s` without the Unicode white space at either end.
pub open spec fn trim_start(s: Seq<char>) -> Seq<char>
    decreases s.len(),
{
    if s.len() > 0 && unicode_white_space(s[0]) {
        trim_start(s.subrange(1, s.len() as int))
    } else {
        s
    }
}

pub open spec fn trim_end(s: Seq<char>) -> Seq<char>
    decreases s.len(),
{
    if s.len() > 0 && unicode_white_space(s[s.len() - 1]) {
        trim_end(s.subrange(0, s.len() - 1))
    } else {
        s
    }
}

pub open spec fn trim(s: Seq<char>) -> Seq<char> {
    trim_end(trim_start(s))
}

/// A `///` doc comment (but not `////`): its text, trimmed.
pub open spec fn doc_comment(s: Seq<char>, i: int) -> Option<(Seq<char>, int)> {
    if starts(s, i, seq!['/', '/', '/']) {
        let e = line_end(s, i + 3);
        let text = s.subrange(i + 3, e);
        if e < s.len() && !(text.len() > 0 && text[0] == '/') {
            Some((trim(text), e + 1))
        } else {
            None
        }
    } else {
        None
    }
}

/// A `//!` comment: its text, trimmed.
pub open spec fn mod_comment(s: Seq<char>, i: int) -> Option<(Seq<char>, int)> {
    if starts(s, i, seq!['/', '/', '!']) {
        let e = line_end(s, i + 3);
        if e < s.len() {
            Some((trim(s.subrange(i + 3, e)), e + 1))
        } else {
            None
        }
    } else {
        None
    }
}

/// The end of the run of identifier characters at `i`.
pub open spec fn ident_run(s: Seq<char>, i: int) -> int
    decreases s.len() - i,
{
    if 0 <= i < s.len() && is_ident_char(s[i]) {
        ident_run(s, i + 1)
    } else {
        i
    }
}

/// An identifier: a letter or `_`, then letters, digits and `_`.
pub open spec fn ident(s: Seq<char>, i: int) -> Option<(Seq<char>, int)> {
    if 0 <= i < s.len() && (is_alpha(s[i]) || s[i] == '_') {
        let e = ident_run(s, i + 1);
        Some((s.subrange(i, e), e))
    } else {
        None
    }
}

/// The rest of a path after its first identifier: `::` and an identifier,
/// repeated.
pub open spec fn path_rest(s: Seq<char>, i: int) -> int
    decreases s.len() - i,
{
    if starts(s, i, seq![':', ':']) {
        match ident(s, i + 2) {
            Some((_, j)) => if i < j <= s.len() { path_rest(s, j) } else { i },
            None => i,
        }
    } else {
        i
    }
}

/// A name, possibly qualified: `a`, `pkg::proc`.
pub open spec fn path(s: Seq<char>, i: int) -> Option<(Seq<char>, int)> {
    match ident(s, i) {
        Some((_, j)) => {
            let e = path_rest(s, j);
            Some((s.subrange(i, e), e))
        },
        None => None,
    }
}

/// The end of the run of digits at `i`.
pub open spec fn digit_run(s: Seq<char>, i: int) -> int
    decreases s.len() - i,
{
    if 0 <= i < s.len() && is_digit(s[i]) {
        digit_run(s, i + 1)
    } else {
        i
    }
}

/// A number literal: an optional `-`, digits, and optionally `.` and
/// digits; it is kept as written.
pub open spec fn number(s: Seq<char>, i: int) -> Option<(Seq<char>, int)> {
    let k = if 0 <= i < s.len() && s[i] == '-' { i + 1 } else { i };
    let d = digit_run(s, k);
    if 0 <= i && d > k {
        let e = if d < s.len() && s[d] == '.' && digit_run(s, d + 1) > d + 1 {
            digit_run(s, d + 1)
        } else {
            d
        };
        Some((s.subrange(i, e), e))
    } else {
        None
    }
}

/// A text literal: the characters between two double quotes.
pub open spec fn string_lit(s: Seq<char>, i: int) -> Option<(Seq<char>, int)> {
    if 0 <= i < s.len() && s[i] == '"' {
        let e = quote_end(s, i + 1);
        if e < s.len() {
            Some((s.subrange(i + 1, e), e + 1))
        } else {
            None
        }
    } else {
        None
    }
}

/// The first `"` at or after `i`, or `s.len()`.
pub open spec fn quote_end(s: Seq<char>, i: int) -> int
    decreases s.len() - i,
{
    if i < 0 || i >= s.len() {
        s.len() as int
    } else if s[i] == '"' {
        i
    } else {
        quote_end(s, i + 1)
    }
}

/// A type name: `number`, `string`, `boolean` or `list`.
pub open spec fn type_spec(s: Seq<char>, i: int) -> Option<(Type, int)> {
    if starts(s, i, "number"@) {
        Some((Type::Number, i + 6))
    } else if starts(s, i, "string"@) {
        Some((Type::String, i + 6))
    } else if starts(s, i, "boolean"@) {
        Some((Type::Boolean, i + 7))
    } else if starts(s, i, "list"@) {
        Some((Type::List, i + 4))
    } else {
        None
    }
}

// ---------------------------------------------------------------------------
// Expressions
// ---------------------------------------------------------------------------

/// Whether `i` is a position of `s`.
pub open spec fn at(s: Seq<char>, i: int) -> bool {
    0 <= i <= s.len()
}

pub open spec fn ch(s: Seq<char>, i: int, c: char) -> bool {
    0 <= i < s.len() && s[i] == c
}

/// The layout before a token, skipped.
pub open spec fn ws(s: Seq<char>, i: int) -> int {
    let k = skip_ws(s, i);
    if i <= k <= s.len() { k } else { i }
}

/// A comma-separated list of expressions, possibly empty; a comma not
/// followed by an expression is left unread.
pub open spec fn expr_list(s: Seq<char>, i: int) -> (Seq<ExprV>, int)
    decreases s.len() - i, 23int,
{
    if !at(s, i) {
        (Seq::empty(), i)
    } else {
        match e_or(s, ws(s, i)) {
            Some((e, j)) => if i <= j <= s.len() {
                list_more(s, j, seq![e])
            } else {
                (Seq::empty(), i)
            },
            None => (Seq::empty(), i),
        }
    }
}

pub open spec fn list_more(s: Seq<char>, i: int, acc: Seq<ExprV>) -> (Seq<ExprV>, int)
    decreases s.len() - i, 22int,
{
    if !at(s, i) {
        (acc, i)
    } else {
        let k = ws(s, i);
        if ch(s, k, ',') {
            match e_or(s, ws(s, k + 1)) {
                Some((e, j)) => if i < j <= s.len() { list_more(s, j, acc.push(e)) } else { (acc, i) },
                None => (acc, i),
            }
        } else {
            (acc, i)
        }
    }
}

/// A binary operator at `i` of one of the levels, with its length.
pub open spec fn op_at(s: Seq<char>, i: int, level: int) -> Option<(Op, int)> {
    if level == 0 {
        if starts(s, i, seq!['|', '|']) { Some((Op::Or, 2)) } else { None }
    } else if level == 1 {
        if starts(s, i, seq!['&', '&']) { Some((Op::And, 2)) } else { None }
    } else if level == 2 {
        if starts(s, i, seq!['=', '=']) {
            Some((Op::Eq, 2))
        } else if starts(s, i, seq!['!', '=']) {
            Some((Op::Ne, 2))
        } else if ch(s, i, '=') {
            Some((Op::Eq, 1))
        } else {
            None
        }
    } else if level == 3 {
        if starts(s, i, seq!['>', '=']) {
            Some((Op::Ge, 2))
        } else if starts(s, i, seq!['<', '=']) {
            Some((Op::Le, 2))
        } else if ch(s, i, '>') {
            Some((Op::Gt, 1))
        } else if ch(s, i, '<') {
            Some((Op::Lt, 1))
        } else {
            None
        }
    } else if level == 4 {
        if ch(s, i, '+') {
            Some((Op::Add, 1))
        } else if ch(s, i, '-') {
            Some((Op::Sub, 1))
        } else {
            None
        }
    } else {
        if ch(s, i, '*') {
            Some((Op::Mul, 1))
        } else if ch(s, i, '/') {
            Some((Op::Div, 1))
        } else if ch(s, i, '%') {
            Some((Op::Mod, 1))
        } else {
            None
        }
    }
}

/// How operators are written: `spells(op, t)` holds when `t` is a spelling
/// of `op` (`=` and `==` both spell equality).
pub open spec fn spells(op: Op, t: Seq<char>) -> bool {
    match op {
        Op::Or => t == seq!['|', '|'],
        Op::And => t == seq!['&', '&'],
        Op::Eq => t == seq!['=', '='] || t == seq!['='],
        Op::Ne => t == seq!['!', '='],
        Op::Ge => t == seq!['>', '='],
        Op::Le => t == seq!['<', '='],
        Op::Gt => t == seq!['>'],
        Op::Lt => t == seq!['<'],
        Op::Add => t == seq!['+'],
        Op::Sub => t == seq!['-'],
        Op::Mul => t == seq!['*'],
        Op::Div => t == seq!['/'],
        Op::Mod => t == seq!['%'],
    }
}

/// The precedence level of an operator: `||` binds loosest (0), then `&&`,
/// equality, comparison, `+ -`, and `* / %` tightest (5).
pub open spec fn op_level(op: Op) -> int {
    match op {
        Op::Or => 0,
        Op::And => 1,
        Op::Eq | Op::Ne => 2,
        Op::Ge | Op::Le | Op::Gt | Op::Lt => 3,
        Op::Add | Op::Sub => 4,
        Op::Mul | Op::Div | Op::Mod => 5,
    }
}

/// The characters of a spelling of `op`: its length, its first character,
/// and its second where it has one.
spec fn spelling_chars(op: Op, t: Seq<char>) -> bool {
    match op {
        Op::Or => t.len() == 2 && t[0] == '|' && t[1] == '|',
        Op::And => t.len() == 2 && t[0] == '&' && t[1] == '&',
        Op::Eq => (t.len() == 2 && t[0] == '=' && t[1] == '=') || (t.len() == 1 && t[0] == '='),
        Op::Ne => t.len() == 2 && t[0] == '!' && t[1] == '=',
        Op::Ge => t.len() == 2 && t[0] == '>' && t[1] == '=',
        Op::Le => t.len() == 2 && t[0] == '<' && t[1] == '=',
        Op::Gt => t.len() == 1 && t[0] == '>',
        Op::Lt => t.len() == 1 && t[0] == '<',
        Op::Add => t.len() == 1 && t[0] == '+',
        Op::Sub => t.len() == 1 && t[0] == '-',
        Op::Mul => t.len() == 1 && t[0] == '*',
        Op::Div => t.len() == 1 && t[0] == '/',
        Op::Mod => t.len() == 1 && t[0] == '%',
    }
}

proof fn lemma_spelling_chars(op: Op, t: Seq<char>)
    ensures
        spells(op, t) <==> spelling_chars(op, t),
{
    if t.len() == 1 {
        assert(t =~= seq![t[0]]);
    } else if t.len() == 2 {
        assert(t =~= seq![t[0], t[1]]);
    }
    assert(seq!['|', '|'][0] == '|' && seq!['|', '|'][1] == '|');
    assert(seq!['&', '&'][0] == '&' && seq!['&', '&'][1] == '&');
    assert(seq!['=', '='][0] == '=' && seq!['=', '='][1] == '=');
    assert(seq!['!', '='][0] == '!' && seq!['!', '='][1] == '=');
    assert(seq!['>', '='][0] == '>' && seq!['>', '='][1] == '=');
    assert(seq!['<', '='][0] == '<' && seq!['<', '='][1] == '=');
    assert(seq!['='][0] == '=' && seq!['>'][0] == '>' && seq!['<'][0] == '<');
    assert(seq!['+'][0] == '+' && seq!['-'][0] == '-' && seq!['*'][0] == '*');
    assert(seq!['/'][0] == '/' && seq!['%'][0] == '%');
}

/// No spelling is shared: a token names at most one operator.
pub proof fn law_spellings_are_distinct(a: Op, b: Op, t: Seq<char>)
    requires
        spells(a, t),
        spells(b, t),
    ensures
        a == b,
{
    lemma_spelling_chars(a, t);
    lemma_spelling_chars(b, t);
}

/// The operator read at a position is the one its characters spell there,
/// and it belongs to the level asked for; where no operator of that level
/// is written, none is read.
pub proof fn law_operator_is_spelled(s: Seq<char>, i: int, level: int)
    requires
        0 <= level <= 5,
    ensures
        op_at(s, i, level) matches Some((op, n)) ==> 0 <= i && i + n <= s.len()
            && spells(op, s.subrange(i, i + n)) && op_level(op) == level,
{
    if let Some((op, n)) = op_at(s, i, level) {
        lemma_starts2(s, i, '|', '|');
        lemma_starts2(s, i, '&', '&');
        lemma_starts2(s, i, '=', '=');
        lemma_starts2(s, i, '!', '=');
        lemma_starts2(s, i, '>', '=');
        lemma_starts2(s, i, '<', '=');
        let t = s.subrange(i, i + n);
        lemma_spelling_chars(op, t);
        assert(t[0] == s[i]);
        if n == 2 {
            assert(t[1] == s[i + 1]);
        }
    }
}

/// The longest operator of the level that is written at a position is read
/// there: of `<=` and `<`, `<=`; of `==` and `=`, `==`.
pub proof fn law_operator_longest(s: Seq<char>, i: int, op: Op, t: Seq<char>)
    requires
        spells(op, t),
        starts(s, i, t),
    ensures
        op_at(s, i, op_level(op)) matches Some((op2, n)) && n >= t.len(),
{
    lemma_spelling_chars(op, t);
    lemma_starts2(s, i, '|', '|');
    lemma_starts2(s, i, '&', '&');
    lemma_starts2(s, i, '=', '=');
    lemma_starts2(s, i, '!', '=');
    lemma_starts2(s, i, '>', '=');
    lemma_starts2(s, i, '<', '=');
    if t.len() == 2 {
        assert(s.subrange(i, i + 2)[0] == t[0] && s.subrange(i, i + 2)[1] == t[1]);
    } else {
        assert(s.subrange(i, i + 1)[0] == t[0]);
    }
}

/// One level of left-associative binary operators (0 `||`, 1 `&&`,
/// 2 equality, 3 comparison, 4 `+ -`, 5 `* / %`): an operand, then
/// operator-operand pairs, folded to the left.
pub open spec fn e_level(s: Seq<char>, i: int, level: int) -> Option<(ExprV, int)>
    decreases s.len() - i, 20 - 3 * level,
{
    if !at(s, i) || level < 0 || level > 5 {
        None
    } else {
        match e_operand(s, ws(s, i), level) {
            Some((e, j)) => if i <= j <= s.len() { Some(e_more(s, j, level, e)) } else { None },
            None => None,
        }
    }
}

/// The operand of a level: the next level, or a unary expression.
pub open spec fn e_operand(s: Seq<char>, i: int, level: int) -> Option<(ExprV, int)>
    decreases s.len() - i, 18 - 3 * level,
{
    if !at(s, i) || level < 0 || level > 5 {
        None
    } else if level == 5 {
        e_unary(s, i)
    } else {
        e_level(s, i, level + 1)
    }
}

pub open spec fn e_more(s: Seq<char>, i: int, level: int, acc: ExprV) -> (ExprV, int)
    decreases s.len() - i, 19 - 3 * level,
{
    if !at(s, i) || level < 0 || level > 5 {
        (acc, i)
    } else {
        let k = ws(s, i);
        match op_at(s, k, level) {
            Some((op, n)) => match e_operand(s, ws(s, k + n), level) {
                Some((e, j)) => if i < j <= s.len() {
                    e_more(s, j, level, ExprV::BinOp(Box::new(acc), op, Box::new(e)))
                } else {
                    (acc, i)
                },
                None => (acc, i),
            },
            None => (acc, i),
        }
    }
}

/// No operator of `level` is written at `k` longer than `t`.
pub open spec fn longest_at(s: Seq<char>, k: int, level: int, t: Seq<char>) -> bool {
    forall|op2: Op, t2: Seq<char>|
        #![trigger spells(op2, t2), starts(s, k, t2)]
        spells(op2, t2) && op_level(op2) == level && starts(s, k, t2) ==> t2.len() <= t.len()
}

/// No operator of `level` is written at `k`.
pub open spec fn no_operator_at(s: Seq<char>, k: int, level: int) -> bool {
    forall|op2: Op, t2: Seq<char>|
        #![trigger spells(op2, t2), starts(s, k, t2)]
        spells(op2, t2) && op_level(op2) == level ==> !starts(s, k, t2)
}

/// Where an operand `a` is followed by an operator `op` of its level,
/// written as `t` (the longest operator written there), and by a second
/// operand `b` that no further operator of the level follows, the level reads
/// `a op b`: the operator the text spells, with `a` on its left and `b` on
/// its right.
pub proof fn law_binary_expression_read(
    s: Seq<char>,
    i: int,
    op: Op,
    t: Seq<char>,
    a: ExprV,
    j: int,
    b: ExprV,
    j2: int,
)
    requires
        0 <= i <= j < j2 <= s.len(),
        spells(op, t),
        e_operand(s, ws(s, i), op_level(op)) == Some((a, j)),
        starts(s, ws(s, j), t),
        longest_at(s, ws(s, j), op_level(op), t),
        e_operand(s, ws(s, ws(s, j) + t.len()), op_level(op)) == Some((b, j2)),
        no_operator_at(s, ws(s, j2), op_level(op)),
    ensures
        e_level(s, i, op_level(op)) == Some((ExprV::BinOp(Box::new(a), op, Box::new(b)), j2)),
{
    let level = op_level(op);
    let k = ws(s, j);
    law_operator_longest(s, k, op, t);
    law_operator_is_spelled(s, k, level);
    let (op2, n) = op_at(s, k, level)->0;
    let t2 = s.subrange(k, k + n);
    assert(starts(s, k, t2));
    assert(n <= t.len());
    assert(t2 =~= t);
    law_spellings_are_distinct(op, op2, t);
    law_operator_is_spelled(s, ws(s, j2), level);
    if let Some((op3, n3)) = op_at(s, ws(s, j2), level) {
        assert(starts(s, ws(s, j2), s.subrange(ws(s, j2), ws(s, j2) + n3)));
    }
    assert(e_more(s, j2, level, ExprV::BinOp(Box::new(a), op, Box::new(b)))
        == (ExprV::BinOp(Box::new(a), op, Box::new(b)), j2));
}

/// An expression: the `||` level.
pub open spec fn e_or(s: Seq<char>, i: int) -> Option<(ExprV, int)>
    decreases s.len() - i, 21int,
{
    e_level(s, i, 0)
}

/// An atom, or `!` or `-` before a unary expression.
pub open spec fn e_unary(s: Seq<char>, i: int) -> Option<(ExprV, int)>
    decreases s.len() - i, 2int,
{
    if !at(s, i) {
        None
    } else {
        match e_atom(s, i) {
            Some(x) => Some(x),
            None => {
                let k = ws(s, i);
                let not = if ch(s, k, '!') {
                    match e_unary(s, ws(s, k + 1)) {
                        Some((e, j)) => if i < j { Some((ExprV::UnOp(UnOp::Not, Box::new(e)), j)) } else { None },
                        None => None,
                    }
                } else {
                    None
                };
                match not {
                    Some(x) => Some(x),
                    None => if ch(s, k, '-') {
                        match e_unary(s, ws(s, k + 1)) {
                            Some((e, j)) => if i < j { Some((ExprV::UnOp(UnOp::Neg, Box::new(e)), j)) } else { None },
                            None => None,
                        }
                    } else {
                        None
                    },
                }
            },
        }
    }
}

/// A literal, a list, a call, a variable, or an expression in parentheses.
pub open spec fn e_atom(s: Seq<char>, i: int) -> Option<(ExprV, int)>
    decreases s.len() - i, 1int,
{
    if !at(s, i) {
        None
    } else {
        match number(s, i) {
            Some((t, j)) => Some((ExprV::Number(t), j)),
            None => match string_lit(s, i) {
                Some((t, j)) => Some((ExprV::String(t), j)),
                None => if starts(s, i, "true"@) {
                    Some((ExprV::Bool(true), i + 4))
                } else if starts(s, i, "false"@) {
                    Some((ExprV::Bool(false), i + 5))
                } else {
                    match e_list(s, i) {
                        Some(x) => Some(x),
                        None => match e_call(s, i) {
                            Some(x) => Some(x),
                            None => match ident(s, i) {
                                Some((n, j)) => Some((ExprV::Variable(n), j)),
                                None => e_paren(s, i),
                            },
                        },
                    }
                },
            },
        }
    }
}

/// `[a, b, ...]`
pub open spec fn e_list(s: Seq<char>, i: int) -> Option<(ExprV, int)>
    decreases s.len() - i, 0int,
{
    let k = ws(s, i);
    if at(s, i) && ch(s, k, '[') {
        let r = expr_list(s, k + 1);
        let m = ws(s, r.1);
        if ch(s, m, ']') { Some((ExprV::List(r.0), m + 1)) } else { None }
    } else {
        None
    }
}

/// `name(a, b, ...)`, where the name may be qualified by a package.
pub open spec fn e_call(s: Seq<char>, i: int) -> Option<(ExprV, int)>
    decreases s.len() - i, 0int,
{
    match path(s, i) {
        Some((n, j)) => if at(s, i) && i < j && ch(s, j, '(') {
            let r = expr_list(s, j + 1);
            if ch(s, r.1, ')') { Some((ExprV::Call(n, r.0), r.1 + 1)) } else { None }
        } else {
            None
        },
        None => None,
    }
}

/// `(e)`
pub open spec fn e_paren(s: Seq<char>, i: int) -> Option<(ExprV, int)>
    decreases s.len() - i, 0int,
{
    if at(s, i) && ch(s, i, '(') {
        match e_or(s, i + 1) {
            Some((e, j)) => if ch(s, j, ')') { Some((e, j + 1)) } else { None },
            None => None,
        }
    } else {
        None
    }
}


// ---------------------------------------------------------------------------
// Statements
// ---------------------------------------------------------------------------

/// Fixed text `t` (a keyword or an operator) after the layout at `i`: the
/// position after it.
pub open spec fn kw(s: Seq<char>, i: int, t: Seq<char>) -> Option<int> {
    let k = ws(s, i);
    if at(s, i) && t.len() > 0 && starts(s, k, t) {
        Some(k + t.len())
    } else {
        None
    }
}

/// The character `c` after the layout at `i`: the position after it.
pub open spec fn tok(s: Seq<char>, i: int, c: char) -> Option<int> {
    let k = ws(s, i);
    if at(s, i) && ch(s, k, c) {
        Some(k + 1)
    } else {
        None
    }
}

/// The statement with its comment set to `c`, where it has one (a `//!`
/// comment statement keeps none).
#[verifier::opaque]
pub open spec fn with_comment(st: StmtV, c: Option<Seq<char>>) -> StmtV {
    match c {
        None => st,
        Some(t) => match st {
            StmtV::Assign(n, e, _) => StmtV::Assign(n, e, Some(t)),
            StmtV::Let(n, e, _) => StmtV::Let(n, e, Some(t)),
            StmtV::Expr(e, _) => StmtV::Expr(e, Some(t)),
            StmtV::If(cond, a, b, _) => StmtV::If(cond, a, b, Some(t)),
            StmtV::Repeat(n, b, _) => StmtV::Repeat(n, b, Some(t)),
            StmtV::Forever(b, _) => StmtV::Forever(b, Some(t)),
            StmtV::Until(cond, b, _) => StmtV::Until(cond, b, Some(t)),
            StmtV::Match(e, arms, d, _) => StmtV::Match(e, arms, d, Some(t)),
            StmtV::Return(e, _) => StmtV::Return(e, Some(t)),
            StmtV::CBlock(n, a, b, _) => StmtV::CBlock(n, a, b, Some(t)),
            StmtV::Comment(_) => st,
        },
    }
}

/// `{ statements }`
pub open spec fn block(s: Seq<char>, i: int) -> Option<(Seq<StmtV>, int)>
    decreases s.len() - i, 0int,
{
    match tok(s, i, '{') {
        Some(p) => if i < p <= s.len() {
            let r = stmts_from(s, p, Seq::empty());
            match tok(s, r.1, '}') {
                Some(q) => Some((r.0, q)),
                None => None,
            }
        } else {
            None
        },
        None => None,
    }
}

/// Statements for as long as one parses, after those in `acc`.
pub open spec fn stmts_from(s: Seq<char>, i: int, acc: Seq<StmtV>) -> (Seq<StmtV>, int)
    decreases s.len() - i, 5int,
{
    if !at(s, i) {
        (acc, i)
    } else {
        match stmt_at(s, i) {
            Some((st, j)) => if i < j <= s.len() {
                stmts_from(s, j, acc.push(st))
            } else {
                (acc, i)
            },
            None => (acc, i),
        }
    }
}

/// A statement, with the `///` doc comment before it, if any.
pub open spec fn stmt_at(s: Seq<char>, i: int) -> Option<(StmtV, int)>
    decreases s.len() - i, 4int,
{
    if !at(s, i) {
        None
    } else {
        let (c, i1) = doc_before(s, i);
        if i <= i1 <= s.len() {
            match stmt_body(s, i1) {
                Some((st, j)) => Some((with_comment(st, c), j)),
                None => None,
            }
        } else {
            None
        }
    }
}

/// The statement forms, tried in order.
pub open spec fn stmt_body(s: Seq<char>, i: int) -> Option<(StmtV, int)>
    decreases s.len() - i, 3int,
{
    if !at(s, i) {
        None
    } else {
        match mod_comment(s, ws(s, i)) {
            Some((t, j)) => Some((StmtV::Comment(t), j)),
            None => match stmt_if(s, i) {
                Some(x) => Some(x),
                None => match stmt_match(s, i) {
                    Some(x) => Some(x),
                    None => match stmt_repeat(s, i) {
                        Some(x) => Some(x),
                        None => match stmt_forever(s, i) {
                            Some(x) => Some(x),
                            None => match stmt_until(s, i) {
                                Some(x) => Some(x),
                                None => match stmt_let(s, i) {
                                    Some(x) => Some(x),
                                    None => match stmt_assign(s, i) {
                                        Some(x) => Some(x),
                                        None => match stmt_return(s, i) {
                                            Some(x) => Some(x),
                                            None => match stmt_c_block(s, i) {
                                                Some(x) => Some(x),
                                                None => stmt_expr(s, i),
                                            },
                                        },
                                    },
                                },
                            },
                        },
                    },
                },
            },
        }
    }
}

/// `if cond { ... }`, optionally followed by `else { ... }`.
pub open spec fn stmt_if(s: Seq<char>, i: int) -> Option<(StmtV, int)>
    decreases s.len() - i, 2int,
{
    match kw(s, i, "if"@) {
        None => None,
        Some(p) => match e_or(s, p) {
            None => None,
            Some((c, j)) => if i < j <= s.len() {
                match block(s, j) {
                    None => None,
                    Some((t, j2)) => if j <= j2 <= s.len() {
                        match kw(s, j2, "else"@) {
                            Some(m) => if j2 < m <= s.len() {
                                match block(s, m) {
                                    Some((e, j3)) => Some((StmtV::If(c, t, Some(e), None), j3)),
                                    None => Some((StmtV::If(c, t, None, None), j2)),
                                }
                            } else {
                                None
                            },
                            None => Some((StmtV::If(c, t, None, None), j2)),
                        }
                    } else {
                        None
                    },
                }
            } else {
                None
            },
        },
    }
}

/// The arms of a `match`, in order: `Some(pattern)`, or `None` for `_`.
pub open spec fn arms_of(cs: Seq<(Option<ExprV>, Seq<StmtV>)>) -> Seq<(ExprV, Seq<StmtV>)>
    decreases cs.len(),
{
    if cs.len() == 0 {
        Seq::empty()
    } else {
        let rest = arms_of(cs.drop_last());
        match cs.last().0 {
            Some(e) => rest.push((e, cs.last().1)),
            None => rest,
        }
    }
}

/// The body of the last `_` arm.
pub open spec fn default_of(cs: Seq<(Option<ExprV>, Seq<StmtV>)>) -> Option<Seq<StmtV>>
    decreases cs.len(),
{
    if cs.len() == 0 {
        None
    } else {
        match cs.last().0 {
            Some(_) => default_of(cs.drop_last()),
            None => Some(cs.last().1),
        }
    }
}

/// `match e { pattern => { ... }, _ => { ... } }`
pub open spec fn stmt_match(s: Seq<char>, i: int) -> Option<(StmtV, int)>
    decreases s.len() - i, 2int,
{
    match kw(s, i, "match"@) {
        None => None,
        Some(p) => match e_or(s, p) {
            None => None,
            Some((e, j)) => match tok(s, j, '{') {
                None => None,
                Some(q) => if i < q <= s.len() {
                    let r = cases_from(s, q, Seq::empty());
                    match tok(s, r.1, '}') {
                        Some(z) => Some((StmtV::Match(e, arms_of(r.0), default_of(r.0), None), z)),
                        None => None,
                    }
                } else {
                    None
                },
            },
        },
    }
}

pub open spec fn cases_from(s: Seq<char>, i: int, acc: Seq<(Option<ExprV>, Seq<StmtV>)>) -> (
    Seq<(Option<ExprV>, Seq<StmtV>)>,
    int,
)
    decreases s.len() - i, 2int,
{
    if !at(s, i) {
        (acc, i)
    } else {
        match match_case(s, i) {
            Some((c, j)) => if i < j <= s.len() {
                cases_from(s, j, acc.push(c))
            } else {
                (acc, i)
            },
            None => (acc, i),
        }
    }
}

/// One arm: `_` or an expression, `=>`, a block, and an optional comma.
pub open spec fn match_case(s: Seq<char>, i: int) -> Option<((Option<ExprV>, Seq<StmtV>), int)>
    decreases s.len() - i, 1int,
{
    let k = ws(s, i);
    let pat: Option<(Option<ExprV>, int)> = if ch(s, k, '_') {
        Some((None, k + 1))
    } else {
        match e_or(s, k) {
            Some((e, j)) => Some((Some(e), j)),
            None => None,
        }
    };
    match pat {
        None => None,
        Some((pv, j)) => match kw(s, j, "=>"@) {
            None => None,
            Some(m) => if at(s, i) && i < m <= s.len() {
                match block(s, m) {
                    None => None,
                    Some((b, j2)) => {
                        let end = match tok(s, j2, ',') {
                            Some(z) => z,
                            None => j2,
                        };
                        Some(((pv, b), end))
                    },
                }
            } else {
                None
            },
        },
    }
}

/// `repeat(n) { ... }`
pub open spec fn stmt_repeat(s: Seq<char>, i: int) -> Option<(StmtV, int)>
    decreases s.len() - i, 2int,
{
    match kw(s, i, "repeat"@) {
        None => None,
        Some(p) => match tok(s, p, '(') {
            None => None,
            Some(q) => match e_or(s, q) {
                None => None,
                Some((n, j)) => match tok(s, j, ')') {
                    None => None,
                    Some(z) => if i < z <= s.len() {
                        match block(s, z) {
                            Some((b, e)) => Some((StmtV::Repeat(n, b, None), e)),
                            None => None,
                        }
                    } else {
                        None
                    },
                },
            },
        },
    }
}

/// `forever { ... }`
pub open spec fn stmt_forever(s: Seq<char>, i: int) -> Option<(StmtV, int)>
    decreases s.len() - i, 2int,
{
    match kw(s, i, "forever"@) {
        None => None,
        Some(p) => if i < p <= s.len() {
            match block(s, p) {
                Some((b, e)) => Some((StmtV::Forever(b, None), e)),
                None => None,
            }
        } else {
            None
        },
    }
}

/// `until cond { ... }`
pub open spec fn stmt_until(s: Seq<char>, i: int) -> Option<(StmtV, int)>
    decreases s.len() - i, 2int,
{
    match kw(s, i, "until"@) {
        None => None,
        Some(p) => match e_or(s, p) {
            None => None,
            Some((c, j)) => if i < j <= s.len() {
                match block(s, j) {
                    Some((b, e)) => Some((StmtV::Until(c, b, None), e)),
                    None => None,
                }
            } else {
                None
            },
        },
    }
}

/// `let name = e;`
pub open spec fn stmt_let(s: Seq<char>, i: int) -> Option<(StmtV, int)> {
    match kw(s, i, "let"@) {
        None => None,
        Some(p) => match ident(s, ws(s, p)) {
            None => None,
            Some((n, j)) => match tok(s, j, '=') {
                None => None,
                Some(q) => match e_or(s, q) {
                    None => None,
                    Some((v, m)) => match tok(s, m, ';') {
                        Some(z) => Some((StmtV::Let(n, v, None), z)),
                        None => None,
                    },
                },
            },
        },
    }
}

/// `name = e;`, `name += e;` or `name -= e;`; the last two assign
/// `name + e` and `name - e`.
pub open spec fn stmt_assign(s: Seq<char>, i: int) -> Option<(StmtV, int)> {
    match ident(s, ws(s, i)) {
        None => None,
        Some((n, j)) => {
            let k = ws(s, j);
            let op: Option<(int, int)> = if !at(s, j) {
                None
            } else if ch(s, k, '=') {
                Some((0, k + 1))
            } else if starts(s, k, seq!['+', '=']) {
                Some((1, k + 2))
            } else if starts(s, k, seq!['-', '=']) {
                Some((2, k + 2))
            } else {
                None
            };
            match op {
                None => None,
                Some((o, q)) => match e_or(s, q) {
                    None => None,
                    Some((v, m)) => match tok(s, m, ';') {
                        None => None,
                        Some(z) => {
                            let value = if o == 0 {
                                v
                            } else if o == 1 {
                                ExprV::BinOp(Box::new(ExprV::Variable(n)), Op::Add, Box::new(v))
                            } else {
                                ExprV::BinOp(Box::new(ExprV::Variable(n)), Op::Sub, Box::new(v))
                            };
                            Some((StmtV::Assign(n, value, None), z))
                        },
                    },
                },
            }
        },
    }
}

/// `return;` or `return e;`
pub open spec fn stmt_return(s: Seq<char>, i: int) -> Option<(StmtV, int)> {
    match kw(s, i, "return"@) {
        None => None,
        Some(p) => {
            let (v, j) = match e_or(s, p) {
                Some((e, j)) => (Some(e), j),
                None => (None, p),
            };
            match tok(s, j, ';') {
                Some(z) => Some((StmtV::Return(v, None), z)),
                None => None,
            }
        },
    }
}

/// A call followed by a block: a C-shaped block such as `when(x) { ... }`.
pub open spec fn stmt_c_block(s: Seq<char>, i: int) -> Option<(StmtV, int)>
    decreases s.len() - i, 2int,
{
    match e_call(s, ws(s, i)) {
        Some((ExprV::Call(n, args), j)) => if at(s, i) && i < j <= s.len() {
            match block(s, j) {
                Some((b, e)) => Some((StmtV::CBlock(n, args, b, None), e)),
                None => None,
            }
        } else {
            None
        },
        _ => None,
    }
}

/// An expression followed by `;`.
pub open spec fn stmt_expr(s: Seq<char>, i: int) -> Option<(StmtV, int)> {
    match e_or(s, i) {
        None => None,
        Some((e, j)) => match tok(s, j, ';') {
            Some(z) => Some((StmtV::Expr(e, None), z)),
            None => None,
        },
    }
}

// ---------------------------------------------------------------------------
// Items and programs
// ---------------------------------------------------------------------------

/// The `///` doc comment after the layout at `i`, if there is one, and the
/// position after it (else `i`).
pub open spec fn doc_before(s: Seq<char>, i: int) -> (Option<Seq<char>>, int) {
    match doc_comment(s, ws(s, i)) {
        Some((t, j)) => (Some(t), j),
        None => (None, i),
    }
}

/// `#[name]` or `#[name(args)]`
pub open spec fn attribute(s: Seq<char>, i: int) -> Option<(AttributeV, int)> {
    match kw(s, i, "#["@) {
        None => None,
        Some(p) => match ident(s, p) {
            None => None,
            Some((n, j)) => {
                let (args, j2) = match tok(s, j, '(') {
                    Some(q) => {
                        let r = expr_list(s, q);
                        match tok(s, r.1, ')') {
                            Some(z) => (r.0, z),
                            None => (Seq::empty(), j),
                        }
                    },
                    None => (Seq::empty(), j),
                };
                match tok(s, j2, ']') {
                    Some(z) => Some((AttributeV { name: n, args: args }, z)),
                    None => None,
                }
            },
        },
    }
}

/// Attributes for as long as one parses, after those in `acc`.
pub open spec fn attrs_from(s: Seq<char>, i: int, acc: Seq<AttributeV>) -> (Seq<AttributeV>, int)
    decreases s.len() - i,
{
    match attribute(s, i) {
        Some((a, j)) => if at(s, i) && i < j <= s.len() {
            attrs_from(s, j, acc.push(a))
        } else {
            (acc, i)
        },
        None => (acc, i),
    }
}

/// Whether the attributes ask for running without screen refresh: `warp`
/// and no `nowarp`.
pub open spec fn warp_of(attrs: Seq<AttributeV>) -> bool {
    (exists|k: int| 0 <= k < attrs.len() && attrs[k].name == "warp"@) && !(exists|k: int|
        0 <= k < attrs.len() && attrs[k].name == "nowarp"@)
}

/// `name: type`
pub open spec fn param(s: Seq<char>, i: int) -> Option<(ParamV, int)> {
    match ident(s, ws(s, i)) {
        None => None,
        Some((n, j)) => match tok(s, j, ':') {
            None => None,
            Some(q) => match type_spec(s, ws(s, q)) {
                Some((t, z)) => Some((ParamV { name: n, ty: t }, z)),
                None => None,
            },
        },
    }
}

pub open spec fn params_more(s: Seq<char>, i: int, acc: Seq<ParamV>) -> (Seq<ParamV>, int)
    decreases s.len() - i,
{
    match tok(s, i, ',') {
        Some(q) => match param(s, q) {
            Some((x, j)) => if at(s, i) && i < j <= s.len() {
                params_more(s, j, acc.push(x))
            } else {
                (acc, i)
            },
            None => (acc, i),
        },
        None => (acc, i),
    }
}

/// `(name: type, ...)`
pub open spec fn params(s: Seq<char>, i: int) -> Option<(Seq<ParamV>, int)> {
    match tok(s, i, '(') {
        None => None,
        Some(p) => {
            let r = match param(s, p) {
                Some((x, j)) => params_more(s, j, seq![x]),
                None => (Seq::empty(), p),
            };
            match tok(s, r.1, ')') {
                Some(z) => Some((r.0, z)),
                None => None,
            }
        },
    }
}

/// `fn name(params) { ... }` with its doc comment and attributes: a script.
pub open spec fn item_function_at(s: Seq<char>, i: int) -> Option<(ItemV, int)> {
    let (c, i1) = doc_before(s, i);
    let (attrs, i2) = attrs_from(s, i1, Seq::empty());
    match kw(s, i2, "fn"@) {
        None => None,
        Some(p) => match ident(s, ws(s, p)) {
            None => None,
            Some((n, j)) => match params(s, j) {
                None => None,
                Some((ps, q)) => match block(s, q) {
                    None => None,
                    Some((b, z)) => Some(
                        (
                            ItemV::Function(
                                FunctionV {
                                    name: n,
                                    attributes: attrs,
                                    params: ps,
                                    body: b,
                                    is_warp: warp_of(attrs),
                                    comment: c,
                                },
                            ),
                            z,
                        ),
                    ),
                },
            },
        },
    }
}

/// `proc name(params) -> type { ... }` (the return type is optional), with
/// its doc comment and attributes: a custom block.
pub open spec fn item_procedure_at(s: Seq<char>, i: int) -> Option<(ItemV, int)> {
    let (c, i1) = doc_before(s, i);
    let (attrs, i2) = attrs_from(s, i1, Seq::empty());
    match kw(s, i2, "proc"@) {
        None => None,
        Some(p) => match ident(s, ws(s, p)) {
            None => None,
            Some((n, j)) => match params(s, j) {
                None => None,
                Some((ps, q)) => {
                    let (rt, q2) = match kw(s, q, "->"@) {
                        Some(m) => match type_spec(s, ws(s, m)) {
                            Some((t, z)) => (Some(t), z),
                            None => (None, q),
                        },
                        None => (None, q),
                    };
                    match block(s, q2) {
                        None => None,
                        Some((b, z)) => Some(
                            (
                                ItemV::Procedure(
                                    ProcedureDefV {
                                        name: n,
                                        params: ps,
                                        body: b,
                                        return_type: rt,
                                        is_warp: warp_of(attrs),
                                        format: None,
                                        comment: c,
                                    },
                                ),
                                z,
                            ),
                        ),
                    }
                },
            },
        },
    }
}

/// `public var name = e;`, `list name = [...];` and the like.
pub open spec fn item_var_at(s: Seq<char>, i: int) -> Option<(ItemV, int)> {
    let (c, i1) = doc_before(s, i);
    let (vis, i2) = match kw(s, i1, "public"@) {
        Some(p) => (Visibility::Public, p),
        None => match kw(s, i1, "private"@) {
            Some(p) => (Visibility::Private, p),
            None => (Visibility::Default, i1),
        },
    };
    let kind: Option<(Type, int)> = match kw(s, i2, "var"@) {
        Some(p) => Some((Type::Unknown, p)),
        None => match kw(s, i2, "list"@) {
            Some(p) => Some((Type::List, p)),
            None => None,
        },
    };
    match kind {
        None => None,
        Some((ty, p)) => match ident(s, ws(s, p)) {
            None => None,
            Some((n, j)) => match tok(s, j, '=') {
                None => None,
                Some(q) => match e_or(s, q) {
                    None => None,
                    Some((v, m)) => match tok(s, m, ';') {
                        Some(z) => Some(
                            (
                                ItemV::Variable(
                                    VariableDeclV {
                                        name: n,
                                        ty: ty,
                                        init: v,
                                        visibility: vis,
                                        comment: c,
                                    },
                                ),
                                z,
                            ),
                        ),
                        None => None,
                    },
                },
            },
        },
    }
}

/// `costume "name" "path";`, optionally with two numbers (the rotation
/// centre) before the `;`.
pub open spec fn item_costume_at(s: Seq<char>, i: int) -> Option<(ItemV, int)> {
    let (_c, i1) = doc_before(s, i);
    match kw(s, i1, "costume"@) {
        None => None,
        Some(p) => match string_lit(s, ws(s, p)) {
            None => None,
            Some((n, j)) => match string_lit(s, ws(s, j)) {
                None => None,
                Some((path, j2)) => {
                    let (x, y, j3) = match number(s, ws(s, j2)) {
                        Some((a, ja)) => match number(s, ws(s, ja)) {
                            Some((b, jb)) => (Some(a), Some(b), jb),
                            None => (None, None, j2),
                        },
                        None => (None, None, j2),
                    };
                    match tok(s, j3, ';') {
                        Some(z) => Some(
                            (ItemV::Costume(AssetDeclV { name: n, path: path, x: x, y: y }), z),
                        ),
                        None => None,
                    }
                },
            },
        },
    }
}

/// `sound "name" "path";`
pub open spec fn item_sound_at(s: Seq<char>, i: int) -> Option<(ItemV, int)> {
    let (_c, i1) = doc_before(s, i);
    match kw(s, i1, "sound"@) {
        None => None,
        Some(p) => match string_lit(s, ws(s, p)) {
            None => None,
            Some((n, j)) => match string_lit(s, ws(s, j)) {
                None => None,
                Some((path, j2)) => match tok(s, j2, ';') {
                    Some(z) => Some(
                        (ItemV::Sound(AssetDeclV { name: n, path: path, x: None, y: None }), z),
                    ),
                    None => None,
                },
            },
        },
    }
}

/// A keyword that must be followed by layout: the position after it.
pub open spec fn kw_sep(s: Seq<char>, i: int, t: Seq<char>) -> Option<int> {
    match kw(s, i, t) {
        Some(p) => if 0 <= p < s.len() && is_ms(s[p]) {
            Some(p)
        } else {
            None
        },
        None => None,
    }
}

/// `use name;`: the use of a package.
pub open spec fn item_use_at(s: Seq<char>, i: int) -> Option<(ItemV, int)> {
    match kw_sep(s, i, "use"@) {
        None => None,
        Some(p) => match path(s, ws(s, p)) {
            None => None,
            Some((n, j)) => match tok(s, j, ';') {
                Some(z) => Some((ItemV::Use(n), z)),
                None => None,
            },
        },
    }
}

/// Text literals separated by commas, possibly none.
pub open spec fn strs_more(s: Seq<char>, i: int, acc: Seq<Seq<char>>) -> (Seq<Seq<char>>, int)
    decreases s.len() - i,
{
    match tok(s, i, ',') {
        Some(q) => match string_lit(s, ws(s, q)) {
            Some((x, j)) => if at(s, i) && i < j <= s.len() {
                strs_more(s, j, acc.push(x))
            } else {
                (acc, i)
            },
            None => (acc, i),
        },
        None => (acc, i),
    }
}

/// `[ "a", "b", ... ]`
pub open spec fn str_list(s: Seq<char>, i: int) -> Option<(Seq<Seq<char>>, int)> {
    match tok(s, i, '[') {
        None => None,
        Some(p) => {
            let r = match string_lit(s, ws(s, p)) {
                Some((x, j)) => strs_more(s, j, seq![x]),
                None => (Seq::empty(), p),
            };
            match tok(s, r.1, ']') {
                Some(z) => Some((r.0, z)),
                None => None,
            }
        },
    }
}

/// One field of a package declaration: `extensions = [...]` (kind 0) or
/// `dependencies = [...]` (kind 1), with an optional comma after it.
pub open spec fn package_field(s: Seq<char>, i: int) -> Option<((int, Seq<Seq<char>>), int)> {
    match ident(s, ws(s, i)) {
        None => None,
        Some((n, j)) => {
            let kind = if n == "extensions"@ {
                0int
            } else if n == "dependencies"@ {
                1int
            } else {
                2int
            };
            if kind == 2 {
                None
            } else {
                match tok(s, j, '=') {
                    None => None,
                    Some(q) => match str_list(s, q) {
                        None => None,
                        Some((l, z)) => {
                            let end = match tok(s, z, ',') {
                                Some(e) => e,
                                None => z,
                            };
                            Some(((kind, l), end))
                        },
                    },
                }
            }
        },
    }
}

/// Package fields for as long as one parses; a later field replaces an
/// earlier one of the same kind.
pub open spec fn fields_from(s: Seq<char>, i: int, exts: Seq<Seq<char>>, deps: Seq<Seq<char>>) -> (
    Seq<Seq<char>>,
    Seq<Seq<char>>,
    int,
)
    decreases s.len() - i,
{
    match package_field(s, i) {
        Some(((k, l), j)) => if at(s, i) && i < j <= s.len() {
            if k == 0 {
                fields_from(s, j, l, deps)
            } else {
                fields_from(s, j, exts, l)
            }
        } else {
            (exts, deps, i)
        },
        None => (exts, deps, i),
    }
}

/// `package name { extensions = [...], dependencies = [...] }`
pub open spec fn item_package_at(s: Seq<char>, i: int) -> Option<(ItemV, int)> {
    match kw_sep(s, i, "package"@) {
        None => None,
        Some(p) => match ident(s, ws(s, p)) {
            None => None,
            Some((n, j)) => match tok(s, j, '{') {
                None => None,
                Some(q) => {
                    let r = fields_from(s, q, Seq::empty(), Seq::empty());
                    match tok(s, r.2, '}') {
                        Some(z) => Some(
                            (
                                ItemV::Package(
                                    PackageV {
                                        name: n,
                                        extensions: r.0,
                                        dependencies: r.1,
                                        items: Seq::empty(),
                                    },
                                ),
                                z,
                            ),
                        ),
                        None => None,
                    }
                },
            },
        },
    }
}

/// A top-level item, the forms tried in order.
pub open spec fn item_at(s: Seq<char>, i: int) -> Option<(ItemV, int)> {
    if !at(s, i) {
        None
    } else {
        let k = ws(s, i);
        match mod_comment(s, k) {
            Some((t, j)) => Some((ItemV::Comment(t), j)),
            None => match item_var_at(s, k) {
                Some(x) => Some(x),
                None => match item_costume_at(s, k) {
                    Some(x) => Some(x),
                    None => match item_sound_at(s, k) {
                        Some(x) => Some(x),
                        None => match item_function_at(s, k) {
                            Some(x) => Some(x),
                            None => match item_procedure_at(s, k) {
                                Some(x) => Some(x),
                                None => match item_use_at(s, k) {
                                    Some(x) => Some(x),
                                    None => match item_package_at(s, k) {
                                        Some(x) => Some(x),
                                        None => match stmt_at(s, k) {
                                            Some((st, j)) => Some((ItemV::Stmt(st), j)),
                                            None => None,
                                        },
                                    },
                                },
                            },
                        },
                    },
                },
            },
        }
    }
}

/// The items of a program from `i` on, after those in `acc`: layout with two
/// or more line breaks (a comment counting as one) becomes a batch break;
/// `Err` holds the position of the first item that does not parse.
pub open spec fn program_from(s: Seq<char>, i: int, acc: Seq<ItemV>) -> Result<Seq<ItemV>, int>
    decreases s.len() - i,
{
    if !at(s, i) {
        Err(i)
    } else {
        let k = ws(s, i);
        let acc2 = if layout_lines(s, i) >= 2 {
            acc.push(ItemV::BatchBreak)
        } else {
            acc
        };
        if k >= s.len() {
            Ok(acc2)
        } else {
            match item_at(s, k) {
                Some((it, j)) => if i < j <= s.len() {
                    program_from(s, j, acc2.push(it))
                } else {
                    Err(k)
                },
                None => Err(k),
            }
        }
    }
}

/// The items of a whole program text.
pub open spec fn program(s: Seq<char>) -> Result<Seq<ItemV>, int> {
    program_from(s, 0, Seq::empty())
}

// ---------------------------------------------------------------------------
// Locating a parse error
// ---------------------------------------------------------------------------

/// The number of line feeds in `p`.
pub open spec fn count_newlines(p: Seq<char>) -> nat
    decreases p.len(),
{
    if p.len() == 0 {
        0
    } else {
        count_newlines(p.drop_last()) + if p.last() == '\n' {
            1nat
        } else {
            0nat
        }
    }
}

/// The number of lines of `p`: a final line without a line feed counts, an
/// empty text has none.
pub open spec fn line_count(p: Seq<char>) -> nat {
    count_newlines(p) + if p.len() > 0 && p.last() != '\n' {
        1nat
    } else {
        0nat
    }
}

/// The line number reported for an error at `offset`: the number of lines
/// before it, at least 1.
pub open spec fn error_line_number(src: Seq<char>, offset: int) -> nat {
    let c = line_count(src.subrange(0, offset));
    if c == 0 {
        1
    } else {
        c
    }
}

/// The line that starts at `a`, or the `n`-th after it (counting from 0),
/// without its line ending (`\n` or `\r\n`); empty where there is no such
/// line.
pub open spec fn nth_line_from(s: Seq<char>, a: int, n: nat) -> Seq<char>
    decreases s.len() - a,
{
    if a < 0 || a >= s.len() {
        Seq::empty()
    } else {
        let e = line_end(s, a);
        if n == 0 {
            let l = s.subrange(a, e);
            if e < s.len() && l.len() > 0 && l.last() == '\r' {
                l.drop_last()
            } else {
                l
            }
        } else if e >= s.len() || e < a {
            Seq::empty()
        } else {
            nth_line_from(s, e + 1, (n - 1) as nat)
        }
    }
}

// ---------------------------------------------------------------------------
// Facts about the layout functions
// ---------------------------------------------------------------------------

proof fn lemma_starts2(s: Seq<char>, i: int, a: char, b: char)
    ensures
        starts(s, i, seq![a, b]) <==> (ch(s, i, a) && ch(s, i + 1, b)),
{
    if ch(s, i, a) && ch(s, i + 1, b) {
        assert(s.subrange(i, i + 2) =~= seq![a, b]);
    }
    if starts(s, i, seq![a, b]) {
        assert(s.subrange(i, i + 2)[0] == a);
        assert(s.subrange(i, i + 2)[1] == b);
    }
}

proof fn lemma_starts3(s: Seq<char>, i: int, a: char, b: char, c: char)
    ensures
        starts(s, i, seq![a, b, c]) <==> (ch(s, i, a) && ch(s, i + 1, b) && ch(s, i + 2, c)),
{
    if ch(s, i, a) && ch(s, i + 1, b) && ch(s, i + 2, c) {
        assert(s.subrange(i, i + 3) =~= seq![a, b, c]);
    }
    if starts(s, i, seq![a, b, c]) {
        assert(s.subrange(i, i + 3)[0] == a);
        assert(s.subrange(i, i + 3)[1] == b);
        assert(s.subrange(i, i + 3)[2] == c);
    }
}

proof fn lemma_line_end(s: Seq<char>, i: int)
    requires
        0 <= i <= s.len(),
    ensures
        i <= line_end(s, i) <= s.len(),
        line_end(s, i) < s.len() ==> s[line_end(s, i)] == '\n',
    decreases s.len() - i,
{
    if i < s.len() && s[i] != '\n' {
        lemma_line_end(s, i + 1);
    }
}

proof fn lemma_comment_end(s: Seq<char>, i: int)
    requires
        0 <= i <= s.len(),
    ensures
        comment_end(s, i) matches Some(j) ==> i < j <= s.len(),
{
    if starts(s, i, seq!['/', '/']) {
        lemma_line_end(s, i + 2);
    }
}

proof fn lemma_skip_ws(s: Seq<char>, i: int)
    requires
        0 <= i <= s.len(),
    ensures
        i <= skip_ws(s, i) <= s.len(),
        ws(s, i) == skip_ws(s, i),
    decreases s.len() - i,
{
    if 0 <= i < s.len() && is_ms(s[i]) {
        lemma_skip_ws(s, i + 1);
    } else {
        lemma_comment_end(s, i);
        match comment_end(s, i) {
            Some(j) => if j > i { lemma_skip_ws(s, j); },
            None => {},
        }
    }
}

// ---------------------------------------------------------------------------
// Scanning
// ---------------------------------------------------------------------------

fn ch_x(s: &Vec<char>, i: usize, c: char) -> (r: bool)
    ensures
        r == ch(s@, i as int, c),
{
    i < s.len() && s[i] == c
}

/// Whether the characters of `t` occur in `s` at `i`.
fn starts_x(s: &Vec<char>, i: usize, t: &str) -> (r: bool)
    ensures
        r == starts(s@, i as int, t@),
{
    let n = t.unicode_len();
    if i > s.len() || n > s.len() - i {
        return false;
    }
    let mut k: usize = 0;
    while k < n
        invariant
            k <= n,
            n == t@.len(),
            i + n <= s.len(),
            forall|m: int| 0 <= m < k ==> s@[i + m] == t@[m],
        decreases n - k,
    {
        if s[i + k] != t.get_char(k) {
            assert(s@.subrange(i as int, i + n)[k as int] != t@[k as int]);
            return false;
        }
        k += 1;
    }
    assert(s@.subrange(i as int, i + n) =~= t@);
    true
}

fn line_end_x(s: &Vec<char>, i: usize) -> (r: usize)
    requires
        i <= s.len(),
    ensures
        r == line_end(s@, i as int),
{
    let mut j = i;
    while j < s.len() && s[j] != '\n'
        invariant
            i <= j <= s.len(),
            line_end(s@, j as int) == line_end(s@, i as int),
        decreases s.len() - j,
    {
        j += 1;
    }
    j
}

fn comment_end_x(s: &Vec<char>, i: usize) -> (r: Option<usize>)
    requires
        i <= s.len(),
    ensures
        match r {
            Some(j) => comment_end(s@, i as int) == Some(j as int),
            None => comment_end(s@, i as int) is None,
        },
{
    proof {
        lemma_starts2(s@, i as int, '/', '/');
    }
    if ch_x(s, i, '/') && ch_x(s, i + 1, '/') {
        let e = line_end_x(s, i + 2);
        proof {
            lemma_line_end(s@, i + 2);
        }
        let ghost text = s@.subrange(i + 2, e as int);
        let bang = e > i + 2 && s[i + 2] == '!';
        let slash_ok = !(e > i + 2 && s[i + 2] == '/') || (e > i + 3 && s[i + 3] == '/');
        if e < s.len() && !bang && slash_ok {
            Some(e + 1)
        } else {
            None
        }
    } else {
        None
    }
}

/// The position after the layout at `i`.
fn ws_x(s: &Vec<char>, i: usize) -> (r: usize)
    requires
        i <= s.len(),
    ensures
        r == ws(s@, i as int),
        i <= r <= s.len(),
{
    let mut j = i;
    proof {
        lemma_skip_ws(s@, i as int);
    }
    loop
        invariant
            i <= j <= s.len(),
            skip_ws(s@, j as int) == skip_ws(s@, i as int),
            ws(s@, i as int) == skip_ws(s@, i as int),
        decreases s.len() - j,
    {
        if j < s.len() && (s[j] == ' ' || s[j] == '\t' || s[j] == '\r' || s[j] == '\n') {
            j += 1;
        } else {
            match comment_end_x(s, j) {
                Some(k) => {
                    proof {
                        lemma_comment_end(s@, j as int);
                    }
                    j = k;
                },
                None => {
                    return j;
                },
            }
        }
    }
}

fn ident_run_x(s: &Vec<char>, i: usize) -> (r: usize)
    requires
        i <= s.len(),
    ensures
        r == ident_run(s@, i as int),
        i <= r <= s.len(),
{
    let mut j = i;
    while j < s.len() && (('a' <= s[j] && s[j] <= 'z') || ('A' <= s[j] && s[j] <= 'Z') || ('0'
        <= s[j] && s[j] <= '9') || s[j] == '_')
        invariant
            i <= j <= s.len(),
            ident_run(s@, j as int) == ident_run(s@, i as int),
        decreases s.len() - j,
    {
        j += 1;
    }
    j
}

/// The end of the identifier at `i`, if there is one.
fn ident_x(s: &Vec<char>, i: usize) -> (r: Option<usize>)
    requires
        i <= s.len(),
    ensures
        match r {
            Some(e) => ident(s@, i as int) == Some((s@.subrange(i as int, e as int), e as int))
                && i < e <= s.len(),
            None => ident(s@, i as int) is None,
        },
{
    if i < s.len() && (('a' <= s[i] && s[i] <= 'z') || ('A' <= s[i] && s[i] <= 'Z') || s[i] == '_') {
        Some(ident_run_x(s, i + 1))
    } else {
        None
    }
}

/// The end of the (possibly qualified) name at `i`, if there is one.
fn path_x(s: &Vec<char>, i: usize) -> (r: Option<usize>)
    requires
        i <= s.len(),
    ensures
        match r {
            Some(e) => path(s@, i as int) == Some((s@.subrange(i as int, e as int), e as int))
                && i < e <= s.len(),
            None => path(s@, i as int) is None,
        },
{
    match ident_x(s, i) {
        None => None,
        Some(j) => {
            let mut k = j;
            loop
                invariant
                    i < j <= k <= s.len(),
                    ident(s@, i as int) == Some((s@.subrange(i as int, j as int), j as int)),
                    path_rest(s@, k as int) == path_rest(s@, j as int),
                decreases s.len() - k,
            {
                proof {
                    lemma_starts2(s@, k as int, ':', ':');
                }
                if ch_x(s, k, ':') && ch_x(s, k + 1, ':') {
                    match ident_x(s, k + 2) {
                        Some(m) => {
                            k = m;
                        },
                        None => {
                            assert(path_rest(s@, k as int) == k);
                            return Some(k);
                        },
                    }
                } else {
                    assert(path_rest(s@, k as int) == k);
                    return Some(k);
                }
            }
        },
    }
}

fn digit_run_x(s: &Vec<char>, i: usize) -> (r: usize)
    requires
        i <= s.len(),
    ensures
        r == digit_run(s@, i as int),
        i <= r <= s.len(),
{
    let mut j = i;
    while j < s.len() && '0' <= s[j] && s[j] <= '9'
        invariant
            i <= j <= s.len(),
            digit_run(s@, j as int) == digit_run(s@, i as int),
        decreases s.len() - j,
    {
        j += 1;
    }
    j
}

/// The end of the number literal at `i`, if there is one.
fn number_x(s: &Vec<char>, i: usize) -> (r: Option<usize>)
    requires
        i <= s.len(),
    ensures
        match r {
            Some(e) => number(s@, i as int) == Some((s@.subrange(i as int, e as int), e as int))
                && i < e <= s.len(),
            None => number(s@, i as int) is None,
        },
{
    let k = if i < s.len() && s[i] == '-' { i + 1 } else { i };
    let d = digit_run_x(s, k);
    if d > k {
        if d < s.len() && s[d] == '.' {
            let f = digit_run_x(s, d + 1);
            if f > d + 1 {
                return Some(f);
            }
        }
        Some(d)
    } else {
        None
    }
}

/// The position of the closing quote of the text literal at `i`, if there is
/// one.
fn string_lit_x(s: &Vec<char>, i: usize) -> (r: Option<usize>)
    requires
        i <= s.len(),
    ensures
        match r {
            Some(e) => string_lit(s@, i as int) == Some((s@.subrange(i + 1, e as int), e + 1))
                && i < e < s.len(),
            None => string_lit(s@, i as int) is None,
        },
{
    if i < s.len() && s[i] == '"' {
        let mut j = i + 1;
        while j < s.len() && s[j] != '"'
            invariant
                i < j <= s.len(),
                quote_end(s@, j as int) == quote_end(s@, i + 1),
            decreases s.len() - j,
        {
            j += 1;
        }
        if j < s.len() {
            Some(j)
        } else {
            None
        }
    } else {
        None
    }
}

fn type_spec_x(s: &Vec<char>, i: usize) -> (r: Option<(Type, usize)>)
    requires
        i <= s.len(),
    ensures
        match r {
            Some((t, j)) => type_spec(s@, i as int) == Some((t, j as int)) && i < j <= s.len(),
            None => type_spec(s@, i as int) is None,
        },
{
    proof {
        reveal_strlit("number");
        reveal_strlit("string");
        reveal_strlit("boolean");
        reveal_strlit("list");
    }
    if starts_x(s, i, "number") {
        Some((Type::Number, i + 6))
    } else if starts_x(s, i, "string") {
        Some((Type::String, i + 6))
    } else if starts_x(s, i, "boolean") {
        Some((Type::Boolean, i + 7))
    } else if starts_x(s, i, "list") {
        Some((Type::List, i + 4))
    } else {
        None
    }
}


// ---------------------------------------------------------------------------
// Parsing expressions
// ---------------------------------------------------------------------------

/// The text of `s` from `lo` to `hi`.
fn text_x(s: &Vec<char>, lo: usize, hi: usize) -> (r: String)
    requires
        lo <= hi <= s.len(),
    ensures
        r@ == s@.subrange(lo as int, hi as int),
{
    string_of(&chars_range(s, lo, hi))
}

fn expr_list_x(s: &Vec<char>, i: usize) -> (r: (Vec<Expr>, usize))
    requires
        i <= s.len(),
    ensures
        exprs_view(r.0@) == expr_list(s@, i as int).0,
        r.1 == expr_list(s@, i as int).1,
        i <= r.1 <= s.len(),
    decreases s.len() - i, 23int,
{
    let k = ws_x(s, i);
    match e_or_x(s, k) {
        None => (Vec::new(), i),
        Some((e, j)) => {
            let mut acc: Vec<Expr> = Vec::new();
            acc.push(e);
            proof {
                lemma_exprs_view_push(Seq::empty(), e);
                assert(Seq::<Expr>::empty().push(e) =~= acc@);
                assert(exprs_view(Seq::<Expr>::empty()) =~= Seq::<ExprV>::empty());
            }
            let mut p = j;
            loop
                invariant
                    i <= p <= s.len(),
                    list_more(s@, p as int, exprs_view(acc@)) == expr_list(s@, i as int),
                decreases s.len() - p,
            {
                let k2 = ws_x(s, p);
                if ch_x(s, k2, ',') {
                    let k3 = ws_x(s, k2 + 1);
                    match e_or_x(s, k3) {
                        Some((e2, j2)) => {
                            proof {
                                lemma_exprs_view_push(acc@, e2);
                            }
                            acc.push(e2);
                            p = j2;
                        },
                        None => {
                            return (acc, p);
                        },
                    }
                } else {
                    return (acc, p);
                }
            }
        },
    }
}

fn op_at_x(s: &Vec<char>, i: usize, level: usize) -> (r: Option<(Op, usize)>)
    requires
        i <= s.len(),
        level <= 5,
    ensures
        match r {
            Some((op, n)) => op_at(s@, i as int, level as int) == Some((op, n as int)) && 1 <= n <= 2
                && i + n <= s.len(),
            None => op_at(s@, i as int, level as int) is None,
        },
{
    proof {
        lemma_starts2(s@, i as int, '|', '|');
        lemma_starts2(s@, i as int, '&', '&');
        lemma_starts2(s@, i as int, '=', '=');
        lemma_starts2(s@, i as int, '!', '=');
        lemma_starts2(s@, i as int, '>', '=');
        lemma_starts2(s@, i as int, '<', '=');
    }
    if level == 0 {
        if ch_x(s, i, '|') && ch_x(s, i + 1, '|') { Some((Op::Or, 2)) } else { None }
    } else if level == 1 {
        if ch_x(s, i, '&') && ch_x(s, i + 1, '&') { Some((Op::And, 2)) } else { None }
    } else if level == 2 {
        if ch_x(s, i, '=') && ch_x(s, i + 1, '=') {
            Some((Op::Eq, 2))
        } else if ch_x(s, i, '!') && ch_x(s, i + 1, '=') {
            Some((Op::Ne, 2))
        } else if ch_x(s, i, '=') {
            Some((Op::Eq, 1))
        } else {
            None
        }
    } else if level == 3 {
        if ch_x(s, i, '>') && ch_x(s, i + 1, '=') {
            Some((Op::Ge, 2))
        } else if ch_x(s, i, '<') && ch_x(s, i + 1, '=') {
            Some((Op::Le, 2))
        } else if ch_x(s, i, '>') {
            Some((Op::Gt, 1))
        } else if ch_x(s, i, '<') {
            Some((Op::Lt, 1))
        } else {
            None
        }
    } else if level == 4 {
        if ch_x(s, i, '+') {
            Some((Op::Add, 1))
        } else if ch_x(s, i, '-') {
            Some((Op::Sub, 1))
        } else {
            None
        }
    } else {
        if ch_x(s, i, '*') {
            Some((Op::Mul, 1))
        } else if ch_x(s, i, '/') {
            Some((Op::Div, 1))
        } else if ch_x(s, i, '%') {
            Some((Op::Mod, 1))
        } else {
            None
        }
    }
}

fn e_level_x(s: &Vec<char>, i: usize, level: usize) -> (r: Option<(Expr, usize)>)
    requires
        i <= s.len(),
        level <= 5,
    ensures
        match r {
            Some((e, j)) => e_level(s@, i as int, level as int) == Some((expr_view(e), j as int))
                && i <= j <= s.len(),
            None => e_level(s@, i as int, level as int) is None,
        },
    decreases s.len() - i, 20 - 3 * level,
{
    let k = ws_x(s, i);
    match e_operand_x(s, k, level) {
        None => None,
        Some((first, j)) => {
            let mut acc = first;
            let mut p = j;
            loop
                invariant
                    i <= p <= s.len(),
                    level <= 5,
                    e_more(s@, p as int, level as int, expr_view(acc)) == e_level(s@, i as int, level as int)->0,
                    e_level(s@, i as int, level as int) is Some,
                decreases s.len() - p,
            {
                let k2 = ws_x(s, p);
                match op_at_x(s, k2, level) {
                    Some((op, n)) => {
                        let k3 = ws_x(s, k2 + n);
                        match e_operand_x(s, k3, level) {
                            Some((e2, j2)) => {
                                acc = Expr::BinOp(Box::new(acc), op, Box::new(e2));
                                p = j2;
                            },
                            None => {
                                return Some((acc, p));
                            },
                        }
                    },
                    None => {
                        return Some((acc, p));
                    },
                }
            }
        },
    }
}

fn e_operand_x(s: &Vec<char>, i: usize, level: usize) -> (r: Option<(Expr, usize)>)
    requires
        i <= s.len(),
        level <= 5,
    ensures
        match r {
            Some((e, j)) => e_operand(s@, i as int, level as int) == Some((expr_view(e), j as int))
                && i <= j <= s.len(),
            None => e_operand(s@, i as int, level as int) is None,
        },
    decreases s.len() - i, 18 - 3 * level,
{
    if level == 5 {
        e_unary_x(s, i)
    } else {
        e_level_x(s, i, level + 1)
    }
}

fn e_or_x(s: &Vec<char>, i: usize) -> (r: Option<(Expr, usize)>)
    requires
        i <= s.len(),
    ensures
        match r {
            Some((e, j)) => e_or(s@, i as int) == Some((expr_view(e), j as int)) && i <= j <= s.len(),
            None => e_or(s@, i as int) is None,
        },
    decreases s.len() - i, 21int,
{
    e_level_x(s, i, 0)
}

fn e_unary_x(s: &Vec<char>, i: usize) -> (r: Option<(Expr, usize)>)
    requires
        i <= s.len(),
    ensures
        match r {
            Some((e, j)) => e_unary(s@, i as int) == Some((expr_view(e), j as int)) && i <= j <= s.len(),
            None => e_unary(s@, i as int) is None,
        },
    decreases s.len() - i, 2int,
{
    match e_atom_x(s, i) {
        Some(x) => Some(x),
        None => {
            let k = ws_x(s, i);
            if ch_x(s, k, '!') {
                let k2 = ws_x(s, k + 1);
                match e_unary_x(s, k2) {
                    Some((e, j)) => {
                        return Some((Expr::UnOp(UnOp::Not, Box::new(e)), j));
                    },
                    None => {},
                }
            }
            if ch_x(s, k, '-') {
                let k2 = ws_x(s, k + 1);
                match e_unary_x(s, k2) {
                    Some((e, j)) => {
                        return Some((Expr::UnOp(UnOp::Neg, Box::new(e)), j));
                    },
                    None => {},
                }
            }
            None
        },
    }
}

fn e_atom_x(s: &Vec<char>, i: usize) -> (r: Option<(Expr, usize)>)
    requires
        i <= s.len(),
    ensures
        match r {
            Some((e, j)) => e_atom(s@, i as int) == Some((expr_view(e), j as int)) && i <= j <= s.len(),
            None => e_atom(s@, i as int) is None,
        },
    decreases s.len() - i, 1int,
{
    proof {
        reveal_strlit("true");
        reveal_strlit("false");
    }
    match number_x(s, i) {
        Some(e) => {
            return Some((Expr::Number(NumLit { text: text_x(s, i, e) }), e));
        },
        None => {},
    }
    match string_lit_x(s, i) {
        Some(e) => {
            return Some((Expr::String(text_x(s, i + 1, e)), e + 1));
        },
        None => {},
    }
    if starts_x(s, i, "true") {
        return Some((Expr::Bool(true), i + 4));
    }
    if starts_x(s, i, "false") {
        return Some((Expr::Bool(false), i + 5));
    }
    match e_list_x(s, i) {
        Some(x) => {
            return Some(x);
        },
        None => {},
    }
    match e_call_x(s, i) {
        Some(x) => {
            return Some(x);
        },
        None => {},
    }
    match ident_x(s, i) {
        Some(e) => {
            return Some((Expr::Variable(text_x(s, i, e)), e));
        },
        None => {},
    }
    e_paren_x(s, i)
}

fn e_list_x(s: &Vec<char>, i: usize) -> (r: Option<(Expr, usize)>)
    requires
        i <= s.len(),
    ensures
        match r {
            Some((e, j)) => e_list(s@, i as int) == Some((expr_view(e), j as int)) && i <= j <= s.len(),
            None => e_list(s@, i as int) is None,
        },
    decreases s.len() - i, 0int,
{
    let k = ws_x(s, i);
    if ch_x(s, k, '[') {
        let (items, q) = expr_list_x(s, k + 1);
        let m = ws_x(s, q);
        if ch_x(s, m, ']') {
            Some((Expr::List(items), m + 1))
        } else {
            None
        }
    } else {
        None
    }
}

fn e_call_x(s: &Vec<char>, i: usize) -> (r: Option<(Expr, usize)>)
    requires
        i <= s.len(),
    ensures
        match r {
            Some((e, j)) => e_call(s@, i as int) == Some((expr_view(e), j as int)) && i <= j <= s.len(),
            None => e_call(s@, i as int) is None,
        },
    decreases s.len() - i, 0int,
{
    match path_x(s, i) {
        Some(j) => {
            if ch_x(s, j, '(') {
                let (args, q) = expr_list_x(s, j + 1);
                if ch_x(s, q, ')') {
                    Some((Expr::Call(text_x(s, i, j), args), q + 1))
                } else {
                    None
                }
            } else {
                None
            }
        },
        None => None,
    }
}

fn e_paren_x(s: &Vec<char>, i: usize) -> (r: Option<(Expr, usize)>)
    requires
        i <= s.len(),
    ensures
        match r {
            Some((e, j)) => e_paren(s@, i as int) == Some((expr_view(e), j as int)) && i <= j <= s.len(),
            None => e_paren(s@, i as int) is None,
        },
    decreases s.len() - i, 0int,
{
    if ch_x(s, i, '(') {
        match e_or_x(s, i + 1) {
            Some((e, j)) => if ch_x(s, j, ')') {
                Some((e, j + 1))
            } else {
                None
            },
            None => None,
        }
    } else {
        None
    }
}


// ---------------------------------------------------------------------------
// Comments
// ---------------------------------------------------------------------------

proof fn lemma_trim_start_step(s: Seq<char>, a: int, hi: int)
    requires
        0 <= a < hi <= s.len(),
        unicode_white_space(s[a]),
    ensures
        trim_start(s.subrange(a, hi)) == trim_start(s.subrange(a + 1, hi)),
{
    assert(s.subrange(a, hi).subrange(1, hi - a) =~= s.subrange(a + 1, hi));
}

proof fn lemma_trim_end_step(s: Seq<char>, lo: int, b: int)
    requires
        0 <= lo < b <= s.len(),
        unicode_white_space(s[b - 1]),
    ensures
        trim_end(s.subrange(lo, b)) == trim_end(s.subrange(lo, b - 1)),
{
    assert(s.subrange(lo, b).subrange(0, b - lo - 1) =~= s.subrange(lo, b - 1));
}

/// The text of `s` from `lo` to `hi` without white space at either end.
fn trim_x(s: &Vec<char>, lo: usize, hi: usize) -> (r: String)
    requires
        lo <= hi <= s.len(),
    ensures
        r@ == trim(s@.subrange(lo as int, hi as int)),
{
    let mut a = lo;
    while a < hi && is_whitespace(s[a])
        invariant
            lo <= a <= hi <= s.len(),
            trim_start(s@.subrange(lo as int, hi as int)) == trim_start(s@.subrange(a as int, hi as int)),
        decreases hi - a,
    {
        proof {
            lemma_trim_start_step(s@, a as int, hi as int);
        }
        a += 1;
    }
    assert(trim_start(s@.subrange(a as int, hi as int)) == s@.subrange(a as int, hi as int));
    let mut b = hi;
    while b > a && is_whitespace(s[b - 1])
        invariant
            lo <= a <= b <= hi <= s.len(),
            trim_end(s@.subrange(a as int, hi as int)) == trim_end(s@.subrange(a as int, b as int)),
        decreases b - a,
    {
        proof {
            lemma_trim_end_step(s@, a as int, b as int);
        }
        b -= 1;
    }
    assert(trim_end(s@.subrange(a as int, b as int)) == s@.subrange(a as int, b as int));
    text_x(s, a, b)
}

fn doc_comment_x(s: &Vec<char>, i: usize) -> (r: Option<(String, usize)>)
    requires
        i <= s.len(),
    ensures
        match r {
            Some((t, j)) => doc_comment(s@, i as int) == Some((t@, j as int)) && i < j <= s.len(),
            None => doc_comment(s@, i as int) is None,
        },
{
    proof {
        lemma_starts3(s@, i as int, '/', '/', '/');
    }
    if ch_x(s, i, '/') && ch_x(s, i + 1, '/') && ch_x(s, i + 2, '/') {
        let e = line_end_x(s, i + 3);
        proof {
            lemma_line_end(s@, i + 3);
        }
        if e < s.len() && !(e > i + 3 && s[i + 3] == '/') {
            Some((trim_x(s, i + 3, e), e + 1))
        } else {
            None
        }
    } else {
        None
    }
}

fn mod_comment_x(s: &Vec<char>, i: usize) -> (r: Option<(String, usize)>)
    requires
        i <= s.len(),
    ensures
        match r {
            Some((t, j)) => mod_comment(s@, i as int) == Some((t@, j as int)) && i < j <= s.len(),
            None => mod_comment(s@, i as int) is None,
        },
{
    proof {
        lemma_starts3(s@, i as int, '/', '/', '!');
    }
    if ch_x(s, i, '/') && ch_x(s, i + 1, '/') && ch_x(s, i + 2, '!') {
        let e = line_end_x(s, i + 3);
        proof {
            lemma_line_end(s@, i + 3);
        }
        if e < s.len() {
            Some((trim_x(s, i + 3, e), e + 1))
        } else {
            None
        }
    } else {
        None
    }
}

// ---------------------------------------------------------------------------
// Parsing statements
// ---------------------------------------------------------------------------

/// The result of a statement parser agrees with its specification.
pub open spec fn stmt_agrees(r: Option<(Stmt, usize)>, v: Option<(StmtV, int)>) -> bool {
    match r {
        Some((st, j)) => v == Some((stmt_view(st), j as int)),
        None => v is None,
    }
}

fn kw_x(s: &Vec<char>, i: usize, t: &str) -> (r: Option<usize>)
    requires
        i <= s.len(),
    ensures
        match r {
            Some(p) => kw(s@, i as int, t@) == Some(p as int) && i < p <= s.len(),
            None => kw(s@, i as int, t@) is None,
        },
{
    let k = ws_x(s, i);
    let n = t.unicode_len();
    if n > 0 && starts_x(s, k, t) {
        Some(k + n)
    } else {
        None
    }
}

fn tok_x(s: &Vec<char>, i: usize, c: char) -> (r: Option<usize>)
    requires
        i <= s.len(),
    ensures
        match r {
            Some(p) => tok(s@, i as int, c) == Some(p as int) && i < p <= s.len(),
            None => tok(s@, i as int, c) is None,
        },
{
    let k = ws_x(s, i);
    if ch_x(s, k, c) {
        Some(k + 1)
    } else {
        None
    }
}

fn with_comment_x(st: Stmt, c: Option<String>) -> (r: Stmt)
    ensures
        stmt_view(r) == with_comment(stmt_view(st), opt_str_view(c)),
{
    proof {
        reveal(with_comment);
    }
    match c {
        None => st,
        Some(t) => match st {
            Stmt::Assign(n, e, _) => Stmt::Assign(n, e, Some(t)),
            Stmt::Let(n, e, _) => Stmt::Let(n, e, Some(t)),
            Stmt::Expr(e, _) => Stmt::Expr(e, Some(t)),
            Stmt::If(cond, a, b, _) => Stmt::If(cond, a, b, Some(t)),
            Stmt::Repeat(n, b, _) => Stmt::Repeat(n, b, Some(t)),
            Stmt::Forever(b, _) => Stmt::Forever(b, Some(t)),
            Stmt::Until(cond, b, _) => Stmt::Until(cond, b, Some(t)),
            Stmt::Match(e, arms, d, _) => Stmt::Match(e, arms, d, Some(t)),
            Stmt::Return(e, _) => Stmt::Return(e, Some(t)),
            Stmt::CBlock(n, a, b, _) => Stmt::CBlock(n, a, b, Some(t)),
            Stmt::Comment(x) => Stmt::Comment(x),
        },
    }
}

fn block_x(s: &Vec<char>, i: usize) -> (r: Option<(Vec<Stmt>, usize)>)
    requires
        i <= s.len(),
    ensures
        match r {
            Some((b, j)) => block(s@, i as int) == Some((stmts_view(b@), j as int)) && i < j <= s.len(),
            None => block(s@, i as int) is None,
        },
    decreases s.len() - i, 0int,
{
    match tok_x(s, i, '{') {
        None => None,
        Some(p) => {
            let mut acc: Vec<Stmt> = Vec::new();
            let mut cur = p;
            proof {
                assert(stmts_view(acc@) =~= Seq::<StmtV>::empty());
            }
            loop
                invariant
                    i < p <= cur <= s.len(),
                    stmts_from(s@, cur as int, stmts_view(acc@)) == stmts_from(s@, p as int, Seq::empty()),
                ensures
                    i < p <= cur <= s.len(),
                    stmts_from(s@, p as int, Seq::empty()) == (stmts_view(acc@), cur as int),
                decreases s.len() - cur,
            {
                match stmt_x(s, cur) {
                    Some((st, j)) => {
                        proof {
                            lemma_stmts_view_push(acc@, st);
                        }
                        acc.push(st);
                        cur = j;
                    },
                    None => {
                        break;
                    },
                }
            }
            match tok_x(s, cur, '}') {
                Some(q) => Some((acc, q)),
                None => None,
            }
        },
    }
}

fn stmt_x(s: &Vec<char>, i: usize) -> (r: Option<(Stmt, usize)>)
    requires
        i <= s.len(),
    ensures
        stmt_agrees(r, stmt_at(s@, i as int)),
        r matches Some((_, j)) ==> i < j <= s.len(),
    decreases s.len() - i, 4int,
{
    let k = ws_x(s, i);
    let (c, i1) = match doc_comment_x(s, k) {
        Some((t, j)) => (Some(t), j),
        None => (None, i),
    };
    match stmt_body_x(s, i1) {
        Some((st, j)) => Some((with_comment_x(st, c), j)),
        None => None,
    }
}

fn stmt_body_x(s: &Vec<char>, i: usize) -> (r: Option<(Stmt, usize)>)
    requires
        i <= s.len(),
    ensures
        stmt_agrees(r, stmt_body(s@, i as int)),
        r matches Some((_, j)) ==> i < j <= s.len(),
    decreases s.len() - i, 3int,
{
    let k = ws_x(s, i);
    match mod_comment_x(s, k) {
        Some((t, j)) => {
            return Some((Stmt::Comment(t), j));
        },
        None => {},
    }
    match stmt_if_x(s, i) {
        Some(x) => {
            return Some(x);
        },
        None => {},
    }
    match stmt_match_x(s, i) {
        Some(x) => {
            return Some(x);
        },
        None => {},
    }
    match stmt_repeat_x(s, i) {
        Some(x) => {
            return Some(x);
        },
        None => {},
    }
    match stmt_forever_x(s, i) {
        Some(x) => {
            return Some(x);
        },
        None => {},
    }
    match stmt_until_x(s, i) {
        Some(x) => {
            return Some(x);
        },
        None => {},
    }
    match stmt_let_x(s, i) {
        Some(x) => {
            return Some(x);
        },
        None => {},
    }
    match stmt_assign_x(s, i) {
        Some(x) => {
            return Some(x);
        },
        None => {},
    }
    match stmt_return_x(s, i) {
        Some(x) => {
            return Some(x);
        },
        None => {},
    }
    match stmt_c_block_x(s, i) {
        Some(x) => {
            return Some(x);
        },
        None => {},
    }
    stmt_expr_x(s, i)
}

fn stmt_if_x(s: &Vec<char>, i: usize) -> (r: Option<(Stmt, usize)>)
    requires
        i <= s.len(),
    ensures
        stmt_agrees(r, stmt_if(s@, i as int)),
        r matches Some((_, j)) ==> i < j <= s.len(),
    decreases s.len() - i, 2int,
{
    let p = match kw_x(s, i, "if") {
        Some(p) => p,
        None => {
            return None;
        },
    };
    let (c, j) = match e_or_x(s, p) {
        Some(x) => x,
        None => {
            return None;
        },
    };
    let (t, j2) = match block_x(s, j) {
        Some(x) => x,
        None => {
            return None;
        },
    };
    match kw_x(s, j2, "else") {
        Some(m) => match block_x(s, m) {
            Some((e, j3)) => Some((Stmt::If(c, t, Some(e), None), j3)),
            None => Some((Stmt::If(c, t, None, None), j2)),
        },
        None => Some((Stmt::If(c, t, None, None), j2)),
    }
}

fn match_case_x(s: &Vec<char>, i: usize) -> (r: Option<((Option<Expr>, Vec<Stmt>), usize)>)
    requires
        i <= s.len(),
    ensures
        match r {
            Some((c, j)) => match_case(s@, i as int) == Some(
                ((crate::ast::opt_expr_view(c.0), stmts_view(c.1@)), j as int),
            ) && i < j <= s.len(),
            None => match_case(s@, i as int) is None,
        },
    decreases s.len() - i, 1int,
{
    let k = ws_x(s, i);
    let (pat, j) = if ch_x(s, k, '_') {
        (None, k + 1)
    } else {
        match e_or_x(s, k) {
            Some((e, j)) => (Some(e), j),
            None => {
                return None;
            },
        }
    };
    let m = match kw_x(s, j, "=>") {
        Some(m) => m,
        None => {
            return None;
        },
    };
    let (b, j2) = match block_x(s, m) {
        Some(x) => x,
        None => {
            return None;
        },
    };
    let end = match tok_x(s, j2, ',') {
        Some(z) => z,
        None => j2,
    };
    Some(((pat, b), end))
}

fn stmt_match_x(s: &Vec<char>, i: usize) -> (r: Option<(Stmt, usize)>)
    requires
        i <= s.len(),
    ensures
        stmt_agrees(r, stmt_match(s@, i as int)),
        r matches Some((_, j)) ==> i < j <= s.len(),
    decreases s.len() - i, 2int,
{
    let p = match kw_x(s, i, "match") {
        Some(p) => p,
        None => {
            return None;
        },
    };
    let (e, j) = match e_or_x(s, p) {
        Some(x) => x,
        None => {
            return None;
        },
    };
    let q = match tok_x(s, j, '{') {
        Some(q) => q,
        None => {
            return None;
        },
    };
    let mut arms: Vec<(Expr, Vec<Stmt>)> = Vec::new();
    let mut dflt: Option<Vec<Stmt>> = None;
    let ghost mut cs: Seq<(Option<ExprV>, Seq<StmtV>)> = Seq::empty();
    let mut cur = q;
    proof {
        assert(arms_view(arms@) =~= arms_of(cs));
    }
    loop
        invariant
            i < q <= cur <= s.len(),
            cases_from(s@, cur as int, cs) == cases_from(s@, q as int, Seq::empty()),
            arms_view(arms@) == arms_of(cs),
            (match dflt {
                Some(b) => Some(stmts_view(b@)),
                None => None,
            }) == default_of(cs),
        ensures
            i < q <= cur <= s.len(),
            cases_from(s@, q as int, Seq::empty()) == (cs, cur as int),
            arms_view(arms@) == arms_of(cs),
            (match dflt {
                Some(b) => Some(stmts_view(b@)),
                None => None,
            }) == default_of(cs),
        decreases s.len() - cur,
    {
        match match_case_x(s, cur) {
            Some(((pat, body), j2)) => {
                let ghost bv = stmts_view(body@);
                proof {
                    assert(cs.push((crate::ast::opt_expr_view(pat), bv)).drop_last() =~= cs);
                }
                match pat {
                    Some(pe) => {
                        proof {
                            lemma_arms_view_push(arms@, (pe, body));
                        }
                        arms.push((pe, body));
                        proof {
                            cs = cs.push((Some(expr_view(pe)), bv));
                        }
                    },
                    None => {
                        dflt = Some(body);
                        proof {
                            cs = cs.push((None, bv));
                        }
                    },
                }
                cur = j2;
            },
            None => {
                break;
            },
        }
    }
    match tok_x(s, cur, '}') {
        Some(z) => Some((Stmt::Match(e, arms, dflt, None), z)),
        None => None,
    }
}

fn stmt_repeat_x(s: &Vec<char>, i: usize) -> (r: Option<(Stmt, usize)>)
    requires
        i <= s.len(),
    ensures
        stmt_agrees(r, stmt_repeat(s@, i as int)),
        r matches Some((_, j)) ==> i < j <= s.len(),
    decreases s.len() - i, 2int,
{
    let p = match kw_x(s, i, "repeat") {
        Some(p) => p,
        None => {
            return None;
        },
    };
    let q = match tok_x(s, p, '(') {
        Some(q) => q,
        None => {
            return None;
        },
    };
    let (n, j) = match e_or_x(s, q) {
        Some(x) => x,
        None => {
            return None;
        },
    };
    let z = match tok_x(s, j, ')') {
        Some(z) => z,
        None => {
            return None;
        },
    };
    match block_x(s, z) {
        Some((b, e)) => Some((Stmt::Repeat(n, b, None), e)),
        None => None,
    }
}

fn stmt_forever_x(s: &Vec<char>, i: usize) -> (r: Option<(Stmt, usize)>)
    requires
        i <= s.len(),
    ensures
        stmt_agrees(r, stmt_forever(s@, i as int)),
        r matches Some((_, j)) ==> i < j <= s.len(),
    decreases s.len() - i, 2int,
{
    let p = match kw_x(s, i, "forever") {
        Some(p) => p,
        None => {
            return None;
        },
    };
    match block_x(s, p) {
        Some((b, e)) => Some((Stmt::Forever(b, None), e)),
        None => None,
    }
}

fn stmt_until_x(s: &Vec<char>, i: usize) -> (r: Option<(Stmt, usize)>)
    requires
        i <= s.len(),
    ensures
        stmt_agrees(r, stmt_until(s@, i as int)),
        r matches Some((_, j)) ==> i < j <= s.len(),
    decreases s.len() - i, 2int,
{
    let p = match kw_x(s, i, "until") {
        Some(p) => p,
        None => {
            return None;
        },
    };
    let (c, j) = match e_or_x(s, p) {
        Some(x) => x,
        None => {
            return None;
        },
    };
    match block_x(s, j) {
        Some((b, e)) => Some((Stmt::Until(c, b, None), e)),
        None => None,
    }
}

fn stmt_let_x(s: &Vec<char>, i: usize) -> (r: Option<(Stmt, usize)>)
    requires
        i <= s.len(),
    ensures
        stmt_agrees(r, stmt_let(s@, i as int)),
        r matches Some((_, j)) ==> i < j <= s.len(),
{
    let p = match kw_x(s, i, "let") {
        Some(p) => p,
        None => {
            return None;
        },
    };
    let k = ws_x(s, p);
    let j = match ident_x(s, k) {
        Some(j) => j,
        None => {
            return None;
        },
    };
    let q = match tok_x(s, j, '=') {
        Some(q) => q,
        None => {
            return None;
        },
    };
    let (v, m) = match e_or_x(s, q) {
        Some(x) => x,
        None => {
            return None;
        },
    };
    match tok_x(s, m, ';') {
        Some(z) => Some((Stmt::Let(text_x(s, k, j), v, None), z)),
        None => None,
    }
}

fn stmt_assign_x(s: &Vec<char>, i: usize) -> (r: Option<(Stmt, usize)>)
    requires
        i <= s.len(),
    ensures
        stmt_agrees(r, stmt_assign(s@, i as int)),
        r matches Some((_, j)) ==> i < j <= s.len(),
{
    let k0 = ws_x(s, i);
    let j = match ident_x(s, k0) {
        Some(j) => j,
        None => {
            return None;
        },
    };
    let k = ws_x(s, j);
    proof {
        lemma_starts2(s@, k as int, '+', '=');
        lemma_starts2(s@, k as int, '-', '=');
    }
    let (o, q): (u8, usize) = if ch_x(s, k, '=') {
        (0, k + 1)
    } else if ch_x(s, k, '+') && ch_x(s, k + 1, '=') {
        (1, k + 2)
    } else if ch_x(s, k, '-') && ch_x(s, k + 1, '=') {
        (2, k + 2)
    } else {
        return None;
    };
    let (v, m) = match e_or_x(s, q) {
        Some(x) => x,
        None => {
            return None;
        },
    };
    let z = match tok_x(s, m, ';') {
        Some(z) => z,
        None => {
            return None;
        },
    };
    let name = text_x(s, k0, j);
    let var = Expr::Variable(name.clone());
    assert(expr_view(var) == ExprV::Variable(name@));
    let value = if o == 0 {
        v
    } else if o == 1 {
        Expr::BinOp(Box::new(var), Op::Add, Box::new(v))
    } else {
        Expr::BinOp(Box::new(var), Op::Sub, Box::new(v))
    };
    Some((Stmt::Assign(name, value, None), z))
}

fn stmt_return_x(s: &Vec<char>, i: usize) -> (r: Option<(Stmt, usize)>)
    requires
        i <= s.len(),
    ensures
        stmt_agrees(r, stmt_return(s@, i as int)),
        r matches Some((_, j)) ==> i < j <= s.len(),
{
    let p = match kw_x(s, i, "return") {
        Some(p) => p,
        None => {
            return None;
        },
    };
    let (v, j) = match e_or_x(s, p) {
        Some((e, j)) => (Some(e), j),
        None => (None, p),
    };
    match tok_x(s, j, ';') {
        Some(z) => Some((Stmt::Return(v, None), z)),
        None => None,
    }
}

fn stmt_c_block_x(s: &Vec<char>, i: usize) -> (r: Option<(Stmt, usize)>)
    requires
        i <= s.len(),
    ensures
        stmt_agrees(r, stmt_c_block(s@, i as int)),
        r matches Some((_, j)) ==> i < j <= s.len(),
    decreases s.len() - i, 2int,
{
    let k = ws_x(s, i);
    match e_call_x(s, k) {
        Some((Expr::Call(n, args), j)) => {
            if j <= i {
                return None;
            }
            match block_x(s, j) {
                Some((b, e)) => Some((Stmt::CBlock(n, args, b, None), e)),
                None => None,
            }
        },
        _ => None,
    }
}

fn stmt_expr_x(s: &Vec<char>, i: usize) -> (r: Option<(Stmt, usize)>)
    requires
        i <= s.len(),
    ensures
        stmt_agrees(r, stmt_expr(s@, i as int)),
        r matches Some((_, j)) ==> i < j <= s.len(),
{
    let (e, j) = match e_or_x(s, i) {
        Some(x) => x,
        None => {
            return None;
        },
    };
    match tok_x(s, j, ';') {
        Some(z) => Some((Stmt::Expr(e, None), z)),
        None => None,
    }
}


// ---------------------------------------------------------------------------
// Parsing items
// ---------------------------------------------------------------------------

/// The result of an item parser agrees with its specification.
pub open spec fn item_agrees(r: Option<(Item, usize)>, v: Option<(ItemV, int)>) -> bool {
    match r {
        Some((it, j)) => v == Some((item_view(it), j as int)),
        None => v is None,
    }
}

fn doc_before_x(s: &Vec<char>, i: usize) -> (r: (Option<String>, usize))
    requires
        i <= s.len(),
    ensures
        (opt_str_view(r.0), r.1 as int) == doc_before(s@, i as int),
        i <= r.1 <= s.len(),
{
    let k = ws_x(s, i);
    match doc_comment_x(s, k) {
        Some((t, j)) => (Some(t), j),
        None => (None, i),
    }
}

fn attribute_x(s: &Vec<char>, i: usize) -> (r: Option<(Attribute, usize)>)
    requires
        i <= s.len(),
    ensures
        match r {
            Some((a, j)) => attribute(s@, i as int) == Some(
                (AttributeV { name: a.name@, args: exprs_view(a.args@) }, j as int),
            ) && i < j <= s.len(),
            None => attribute(s@, i as int) is None,
        },
{
    let p = match kw_x(s, i, "#[") {
        Some(p) => p,
        None => {
            return None;
        },
    };
    let j = match ident_x(s, p) {
        Some(j) => j,
        None => {
            return None;
        },
    };
    let (args, j2) = match tok_x(s, j, '(') {
        Some(q) => {
            let (l, e) = expr_list_x(s, q);
            match tok_x(s, e, ')') {
                Some(z) => (l, z),
                None => (Vec::new(), j),
            }
        },
        None => (Vec::new(), j),
    };
    proof {
        assert(exprs_view(Seq::<Expr>::empty()) =~= Seq::<ExprV>::empty());
    }
    match tok_x(s, j2, ']') {
        Some(z) => Some((Attribute { name: text_x(s, p, j), args }, z)),
        None => None,
    }
}

fn attrs_x(s: &Vec<char>, i: usize) -> (r: (Vec<Attribute>, usize))
    requires
        i <= s.len(),
    ensures
        (attrs_view(r.0@), r.1 as int) == attrs_from(s@, i as int, Seq::empty()),
        i <= r.1 <= s.len(),
{
    let mut acc: Vec<Attribute> = Vec::new();
    let mut cur = i;
    proof {
        assert(attrs_view(acc@) =~= Seq::<AttributeV>::empty());
    }
    loop
        invariant
            i <= cur <= s.len(),
            attrs_from(s@, cur as int, attrs_view(acc@)) == attrs_from(s@, i as int, Seq::empty()),
        decreases s.len() - cur,
    {
        match attribute_x(s, cur) {
            Some((a, j)) => {
                proof {
                    assert(attrs_view(acc@.push(a)) =~= attrs_view(acc@).push(
                        AttributeV { name: a.name@, args: exprs_view(a.args@) },
                    ));
                }
                acc.push(a);
                cur = j;
            },
            None => {
                return (acc, cur);
            },
        }
    }
}

fn warp_x(attrs: &Vec<Attribute>) -> (r: bool)
    ensures
        r == warp_of(attrs_view(attrs@)),
{
    let mut warp = false;
    let mut nowarp = false;
    let mut k: usize = 0;
    while k < attrs.len()
        invariant
            k <= attrs.len(),
            warp == (exists|m: int| 0 <= m < k && attrs@[m].name@ == "warp"@),
            nowarp == (exists|m: int| 0 <= m < k && attrs@[m].name@ == "nowarp"@),
        decreases attrs.len() - k,
    {
        if str_eq(attrs[k].name.as_str(), "warp") {
            warp = true;
        }
        if str_eq(attrs[k].name.as_str(), "nowarp") {
            nowarp = true;
        }
        k += 1;
    }
    let ghost av = attrs_view(attrs@);
    assert(warp == (exists|m: int| 0 <= m < av.len() && av[m].name == "warp"@)) by {
        if warp {
            let m = choose|m: int| 0 <= m < k && attrs@[m].name@ == "warp"@;
            assert(av[m].name == "warp"@);
        }
    }
    assert(nowarp == (exists|m: int| 0 <= m < av.len() && av[m].name == "nowarp"@)) by {
        if nowarp {
            let m = choose|m: int| 0 <= m < k && attrs@[m].name@ == "nowarp"@;
            assert(av[m].name == "nowarp"@);
        }
    }
    warp && !nowarp
}

fn param_x(s: &Vec<char>, i: usize) -> (r: Option<(Param, usize)>)
    requires
        i <= s.len(),
    ensures
        match r {
            Some((x, j)) => param(s@, i as int) == Some((ParamV { name: x.name@, ty: x.ty }, j as int))
                && i < j <= s.len(),
            None => param(s@, i as int) is None,
        },
{
    let k = ws_x(s, i);
    let j = match ident_x(s, k) {
        Some(j) => j,
        None => {
            return None;
        },
    };
    let q = match tok_x(s, j, ':') {
        Some(q) => q,
        None => {
            return None;
        },
    };
    let k2 = ws_x(s, q);
    match type_spec_x(s, k2) {
        Some((t, z)) => Some((Param { name: text_x(s, k, j), ty: t }, z)),
        None => None,
    }
}

fn params_x(s: &Vec<char>, i: usize) -> (r: Option<(Vec<Param>, usize)>)
    requires
        i <= s.len(),
    ensures
        match r {
            Some((ps, j)) => params(s@, i as int) == Some((params_view(ps@), j as int)) && i < j
                <= s.len(),
            None => params(s@, i as int) is None,
        },
{
    let p = match tok_x(s, i, '(') {
        Some(p) => p,
        None => {
            return None;
        },
    };
    let mut acc: Vec<Param> = Vec::new();
    let mut cur = p;
    match param_x(s, p) {
        Some((x, j)) => {
            proof {
                assert(params_view(seq![x]) =~= seq![ParamV { name: x.name@, ty: x.ty }]);
            }
            acc.push(x);
            cur = j;
            assert(acc@ =~= seq![x]);
            loop
                invariant
                    p < cur <= s.len(),
                    params_more(s@, cur as int, params_view(acc@)) == params_more(
                        s@,
                        j as int,
                        params_view(seq![x]),
                    ),
                ensures
                    p < cur <= s.len(),
                    params_more(s@, j as int, params_view(seq![x])) == (params_view(acc@), cur as int),
                decreases s.len() - cur,
            {
                match tok_x(s, cur, ',') {
                    Some(q) => match param_x(s, q) {
                        Some((y, j2)) => {
                            proof {
                                assert(params_view(acc@.push(y)) =~= params_view(acc@).push(
                                    ParamV { name: y.name@, ty: y.ty },
                                ));
                            }
                            acc.push(y);
                            cur = j2;
                        },
                        None => {
                            break;
                        },
                    },
                    None => {
                        break;
                    },
                }
            }
        },
        None => {
            proof {
                assert(params_view(acc@) =~= Seq::<ParamV>::empty());
            }
        },
    }
    match tok_x(s, cur, ')') {
        Some(z) => Some((acc, z)),
        None => None,
    }
}


fn item_function_x(s: &Vec<char>, i: usize) -> (r: Option<(Item, usize)>)
    requires
        i <= s.len(),
    ensures
        item_agrees(r, item_function_at(s@, i as int)),
        r matches Some((_, j)) ==> i < j <= s.len(),
{
    let (c, i1) = doc_before_x(s, i);
    let (attrs, i2) = attrs_x(s, i1);
    let p = match kw_x(s, i2, "fn") {
        Some(p) => p,
        None => {
            return None;
        },
    };
    let k = ws_x(s, p);
    let j = match ident_x(s, k) {
        Some(j) => j,
        None => {
            return None;
        },
    };
    let (ps, q) = match params_x(s, j) {
        Some(x) => x,
        None => {
            return None;
        },
    };
    let (b, z) = match block_x(s, q) {
        Some(x) => x,
        None => {
            return None;
        },
    };
    let is_warp = warp_x(&attrs);
    let f = Function {
        name: text_x(s, k, j),
        attributes: attrs,
        params: ps,
        body: b,
        is_warp,
        comment: c,
    };
    Some((Item::Function(f), z))
}

fn item_procedure_x(s: &Vec<char>, i: usize) -> (r: Option<(Item, usize)>)
    requires
        i <= s.len(),
    ensures
        item_agrees(r, item_procedure_at(s@, i as int)),
        r matches Some((_, j)) ==> i < j <= s.len(),
{
    let (c, i1) = doc_before_x(s, i);
    let (attrs, i2) = attrs_x(s, i1);
    let p = match kw_x(s, i2, "proc") {
        Some(p) => p,
        None => {
            return None;
        },
    };
    let k = ws_x(s, p);
    let j = match ident_x(s, k) {
        Some(j) => j,
        None => {
            return None;
        },
    };
    let (ps, q) = match params_x(s, j) {
        Some(x) => x,
        None => {
            return None;
        },
    };
    let (rt, q2) = match kw_x(s, q, "->") {
        Some(m) => {
            let km = ws_x(s, m);
            match type_spec_x(s, km) {
                Some((t, z)) => (Some(t), z),
                None => (None, q),
            }
        },
        None => (None, q),
    };
    let (b, z) = match block_x(s, q2) {
        Some(x) => x,
        None => {
            return None;
        },
    };
    let is_warp = warp_x(&attrs);
    let d = ProcedureDef {
        name: text_x(s, k, j),
        params: ps,
        body: b,
        return_type: rt,
        is_warp,
        format: None,
        comment: c,
    };
    Some((Item::Procedure(d), z))
}

fn item_var_x(s: &Vec<char>, i: usize) -> (r: Option<(Item, usize)>)
    requires
        i <= s.len(),
    ensures
        item_agrees(r, item_var_at(s@, i as int)),
        r matches Some((_, j)) ==> i < j <= s.len(),
{
    let (c, i1) = doc_before_x(s, i);
    let (vis, i2) = match kw_x(s, i1, "public") {
        Some(p) => (Visibility::Public, p),
        None => match kw_x(s, i1, "private") {
            Some(p) => (Visibility::Private, p),
            None => (Visibility::Default, i1),
        },
    };
    let (ty, p) = match kw_x(s, i2, "var") {
        Some(p) => (Type::Unknown, p),
        None => match kw_x(s, i2, "list") {
            Some(p) => (Type::List, p),
            None => {
                return None;
            },
        },
    };
    let k = ws_x(s, p);
    let j = match ident_x(s, k) {
        Some(j) => j,
        None => {
            return None;
        },
    };
    let q = match tok_x(s, j, '=') {
        Some(q) => q,
        None => {
            return None;
        },
    };
    let (v, m) = match e_or_x(s, q) {
        Some(x) => x,
        None => {
            return None;
        },
    };
    let z = match tok_x(s, m, ';') {
        Some(z) => z,
        None => {
            return None;
        },
    };
    let decl = VariableDecl { name: text_x(s, k, j), ty, init: v, visibility: vis, comment: c };
    Some((Item::Variable(decl), z))
}

fn number_lit_x(s: &Vec<char>, i: usize, e: usize) -> (r: NumLit)
    requires
        i <= e <= s.len(),
    ensures
        r.text@ == s@.subrange(i as int, e as int),
{
    NumLit { text: text_x(s, i, e) }
}

fn item_costume_x(s: &Vec<char>, i: usize) -> (r: Option<(Item, usize)>)
    requires
        i <= s.len(),
    ensures
        item_agrees(r, item_costume_at(s@, i as int)),
        r matches Some((_, j)) ==> i < j <= s.len(),
{
    let (_c, i1) = doc_before_x(s, i);
    let p = match kw_x(s, i1, "costume") {
        Some(p) => p,
        None => {
            return None;
        },
    };
    let k = ws_x(s, p);
    let j = match string_lit_x(s, k) {
        Some(e) => e,
        None => {
            return None;
        },
    };
    let k2 = ws_x(s, j + 1);
    let j2 = match string_lit_x(s, k2) {
        Some(e) => e,
        None => {
            return None;
        },
    };
    let ka = ws_x(s, j2 + 1);
    let (x, y, j3) = match number_x(s, ka) {
        Some(ea) => {
            let kb = ws_x(s, ea);
            match number_x(s, kb) {
                Some(eb) => (Some(number_lit_x(s, ka, ea)), Some(number_lit_x(s, kb, eb)), eb),
                None => (None, None, j2 + 1),
            }
        },
        None => (None, None, j2 + 1),
    };
    let z = match tok_x(s, j3, ';') {
        Some(z) => z,
        None => {
            return None;
        },
    };
    let a = AssetDecl { name: text_x(s, k + 1, j), path: text_x(s, k2 + 1, j2), x, y };
    Some((Item::Costume(a), z))
}

fn item_sound_x(s: &Vec<char>, i: usize) -> (r: Option<(Item, usize)>)
    requires
        i <= s.len(),
    ensures
        item_agrees(r, item_sound_at(s@, i as int)),
        r matches Some((_, j)) ==> i < j <= s.len(),
{
    let (_c, i1) = doc_before_x(s, i);
    let p = match kw_x(s, i1, "sound") {
        Some(p) => p,
        None => {
            return None;
        },
    };
    let k = ws_x(s, p);
    let j = match string_lit_x(s, k) {
        Some(e) => e,
        None => {
            return None;
        },
    };
    let k2 = ws_x(s, j + 1);
    let j2 = match string_lit_x(s, k2) {
        Some(e) => e,
        None => {
            return None;
        },
    };
    let z = match tok_x(s, j2 + 1, ';') {
        Some(z) => z,
        None => {
            return None;
        },
    };
    let a = AssetDecl { name: text_x(s, k + 1, j), path: text_x(s, k2 + 1, j2), x: None, y: None };
    Some((Item::Sound(a), z))
}

fn kw_sep_x(s: &Vec<char>, i: usize, t: &str) -> (r: Option<usize>)
    requires
        i <= s.len(),
    ensures
        match r {
            Some(p) => kw_sep(s@, i as int, t@) == Some(p as int) && i < p < s.len(),
            None => kw_sep(s@, i as int, t@) is None,
        },
{
    match kw_x(s, i, t) {
        Some(p) => if p < s.len() && (s[p] == ' ' || s[p] == '\t' || s[p] == '\r' || s[p] == '\n') {
            Some(p)
        } else {
            None
        },
        None => None,
    }
}

fn item_use_x(s: &Vec<char>, i: usize) -> (r: Option<(Item, usize)>)
    requires
        i <= s.len(),
    ensures
        item_agrees(r, item_use_at(s@, i as int)),
        r matches Some((_, j)) ==> i < j <= s.len(),
{
    let p = match kw_sep_x(s, i, "use") {
        Some(p) => p,
        None => {
            return None;
        },
    };
    let k = ws_x(s, p);
    let j = match path_x(s, k) {
        Some(j) => j,
        None => {
            return None;
        },
    };
    match tok_x(s, j, ';') {
        Some(z) => Some((Item::Use(text_x(s, k, j)), z)),
        None => None,
    }
}

fn str_list_x(s: &Vec<char>, i: usize) -> (r: Option<(Vec<String>, usize)>)
    requires
        i <= s.len(),
    ensures
        match r {
            Some((l, j)) => str_list(s@, i as int) == Some((strs_view(l@), j as int)) && i < j <= s.len(),
            None => str_list(s@, i as int) is None,
        },
{
    let p = match tok_x(s, i, '[') {
        Some(p) => p,
        None => {
            return None;
        },
    };
    let mut acc: Vec<String> = Vec::new();
    let mut cur = p;
    let k = ws_x(s, p);
    match string_lit_x(s, k) {
        Some(e) => {
            let first = text_x(s, k + 1, e);
            let ghost fv = first@;
            acc.push(first);
            cur = e + 1;
            proof {
                assert(strs_view(acc@) =~= seq![fv]);
            }
            loop
                invariant
                    p < cur <= s.len(),
                    strs_more(s@, cur as int, strs_view(acc@)) == strs_more(s@, e + 1, seq![fv]),
                ensures
                    p < cur <= s.len(),
                    strs_more(s@, e + 1, seq![fv]) == (strs_view(acc@), cur as int),
                decreases s.len() - cur,
            {
                match tok_x(s, cur, ',') {
                    Some(q) => {
                        let kq = ws_x(s, q);
                        match string_lit_x(s, kq) {
                            Some(e2) => {
                                let t = text_x(s, kq + 1, e2);
                                proof {
                                    assert(strs_view(acc@.push(t)) =~= strs_view(acc@).push(t@));
                                }
                                acc.push(t);
                                cur = e2 + 1;
                            },
                            None => {
                                break;
                            },
                        }
                    },
                    None => {
                        break;
                    },
                }
            }
        },
        None => {
            proof {
                assert(strs_view(acc@) =~= Seq::<Seq<char>>::empty());
            }
        },
    }
    match tok_x(s, cur, ']') {
        Some(z) => Some((acc, z)),
        None => None,
    }
}

fn package_field_x(s: &Vec<char>, i: usize) -> (r: Option<((u8, Vec<String>), usize)>)
    requires
        i <= s.len(),
    ensures
        match r {
            Some(((k, l), j)) => package_field(s@, i as int) == Some(((k as int, strs_view(l@)), j as int))
                && i < j <= s.len(),
            None => package_field(s@, i as int) is None,
        },
{
    let k0 = ws_x(s, i);
    let j = match ident_x(s, k0) {
        Some(j) => j,
        None => {
            return None;
        },
    };
    let name = text_x(s, k0, j);
    let kind: u8 = if str_eq(name.as_str(), "extensions") {
        0
    } else if str_eq(name.as_str(), "dependencies") {
        1
    } else {
        return None;
    };
    let q = match tok_x(s, j, '=') {
        Some(q) => q,
        None => {
            return None;
        },
    };
    let (l, z) = match str_list_x(s, q) {
        Some(x) => x,
        None => {
            return None;
        },
    };
    let end = match tok_x(s, z, ',') {
        Some(e) => e,
        None => z,
    };
    Some(((kind, l), end))
}

fn item_package_x(s: &Vec<char>, i: usize) -> (r: Option<(Item, usize)>)
    requires
        i <= s.len(),
    ensures
        item_agrees(r, item_package_at(s@, i as int)),
        r matches Some((_, j)) ==> i < j <= s.len(),
{
    let p = match kw_sep_x(s, i, "package") {
        Some(p) => p,
        None => {
            return None;
        },
    };
    let k = ws_x(s, p);
    let j = match ident_x(s, k) {
        Some(j) => j,
        None => {
            return None;
        },
    };
    let q = match tok_x(s, j, '{') {
        Some(q) => q,
        None => {
            return None;
        },
    };
    let mut exts: Vec<String> = Vec::new();
    let mut deps: Vec<String> = Vec::new();
    let mut cur = q;
    proof {
        assert(strs_view(exts@) =~= Seq::<Seq<char>>::empty());
        assert(strs_view(deps@) =~= Seq::<Seq<char>>::empty());
    }
    loop
        invariant
            q <= cur <= s.len(),
            fields_from(s@, cur as int, strs_view(exts@), strs_view(deps@)) == fields_from(
                s@,
                q as int,
                Seq::empty(),
                Seq::empty(),
            ),
        ensures
            q <= cur <= s.len(),
            fields_from(s@, q as int, Seq::empty(), Seq::empty()) == (
                strs_view(exts@),
                strs_view(deps@),
                cur as int,
            ),
        decreases s.len() - cur,
    {
        match package_field_x(s, cur) {
            Some(((kind, l), e)) => {
                if kind == 0 {
                    exts = l;
                } else {
                    deps = l;
                }
                cur = e;
            },
            None => {
                break;
            },
        }
    }
    let z = match tok_x(s, cur, '}') {
        Some(z) => z,
        None => {
            return None;
        },
    };
    let pkg = Package { name: text_x(s, k, j), extensions: exts, dependencies: deps, items: Vec::new() };
    proof {
        assert(items_view(pkg.items@) =~= Seq::<ItemV>::empty());
    }
    Some((Item::Package(pkg), z))
}

fn item_x(s: &Vec<char>, i: usize) -> (r: Option<(Item, usize)>)
    requires
        i <= s.len(),
    ensures
        item_agrees(r, item_at(s@, i as int)),
        r matches Some((_, j)) ==> i < j <= s.len(),
{
    let k = ws_x(s, i);
    match mod_comment_x(s, k) {
        Some((t, j)) => {
            return Some((Item::Comment(t), j));
        },
        None => {},
    }
    match item_var_x(s, k) {
        Some(x) => {
            return Some(x);
        },
        None => {},
    }
    match item_costume_x(s, k) {
        Some(x) => {
            return Some(x);
        },
        None => {},
    }
    match item_sound_x(s, k) {
        Some(x) => {
            return Some(x);
        },
        None => {},
    }
    match item_function_x(s, k) {
        Some(x) => {
            return Some(x);
        },
        None => {},
    }
    match item_procedure_x(s, k) {
        Some(x) => {
            return Some(x);
        },
        None => {},
    }
    match item_use_x(s, k) {
        Some(x) => {
            return Some(x);
        },
        None => {},
    }
    match item_package_x(s, k) {
        Some(x) => {
            return Some(x);
        },
        None => {},
    }
    match stmt_x(s, k) {
        Some((st, j)) => Some((Item::Stmt(st), j)),
        None => None,
    }
}


// ---------------------------------------------------------------------------
// Programs
// ---------------------------------------------------------------------------

proof fn lemma_layout_lines(s: Seq<char>, i: int)
    requires
        0 <= i <= s.len(),
    ensures
        layout_lines(s, i) <= s.len() - i,
    decreases s.len() - i,
{
    if 0 <= i < s.len() && is_ms(s[i]) {
        lemma_layout_lines(s, i + 1);
    } else {
        lemma_comment_end(s, i);
        match comment_end(s, i) {
            Some(j) => if j > i {
                lemma_layout_lines(s, j);
            },
            None => {},
        }
    }
}

/// The layout at `i`: the number of line breaks in it and the position
/// after it.
fn layout_x(s: &Vec<char>, i: usize) -> (r: (usize, usize))
    requires
        i <= s.len(),
    ensures
        r.0 == layout_lines(s@, i as int),
        r.1 == ws(s@, i as int),
        i <= r.1 <= s.len(),
{
    let mut j = i;
    let mut count: usize = 0;
    proof {
        lemma_skip_ws(s@, i as int);
        lemma_layout_lines(s@, i as int);
    }
    loop
        invariant
            i <= j <= s.len(),
            skip_ws(s@, j as int) == skip_ws(s@, i as int),
            ws(s@, i as int) == skip_ws(s@, i as int),
            layout_lines(s@, i as int) == count + layout_lines(s@, j as int),
            count <= j - i,
        decreases s.len() - j,
    {
        if j < s.len() && (s[j] == ' ' || s[j] == '\t' || s[j] == '\r' || s[j] == '\n') {
            if s[j] == '\n' {
                count += 1;
            }
            j += 1;
        } else {
            match comment_end_x(s, j) {
                Some(k) => {
                    proof {
                        lemma_comment_end(s@, j as int);
                    }
                    count += 1;
                    j = k;
                },
                None => {
                    assert(layout_lines(s@, j as int) == 0);
                    return (count, j);
                },
            }
        }
    }
}

/// Where a program text could not be parsed: the position, counted in
/// characters, of the first item that does not parse.
#[derive(Debug, Clone, Copy, PartialEq, Eq, Structural)]
pub struct ParseError {
    pub offset: usize,
}

/// Parses a whole program. Layout of two or more line breaks between items
/// (a `//` comment counting as one) becomes a batch break.
pub fn parse_program(input: &str) -> (r: Result<Program, ParseError>)
    ensures
        match r {
            Ok(p) => program(input@) == Ok::<Seq<ItemV>, int>(items_view(p.items@)),
            Err(e) => program(input@) == Err::<Seq<ItemV>, int>(e.offset as int),
        },
{
    let s = chars_of(input);
    let mut items: Vec<Item> = Vec::new();
    let mut pos: usize = 0;
    proof {
        assert(items_view(items@) =~= Seq::<ItemV>::empty());
    }
    loop
        invariant
            pos <= s.len(),
            s@ == input@,
            program_from(s@, pos as int, items_view(items@)) == program(s@),
        decreases s.len() - pos,
    {
        let (lines, k) = layout_x(&s, pos);
        if lines >= 2 {
            proof {
                lemma_items_view_push(items@, Item::BatchBreak);
            }
            items.push(Item::BatchBreak);
        }
        if k >= s.len() {
            return Ok(Program { items });
        }
        match item_x(&s, k) {
            Some((it, j)) => {
                proof {
                    lemma_items_view_push(items@, it);
                }
                items.push(it);
                pos = j;
            },
            None => {
                return Err(ParseError { offset: k });
            },
        }
    }
}

/// Parses one statement at the start of `input`: the position after it and
/// the statement.
pub fn stmt(input: &str) -> (r: Result<(usize, Stmt), ParseError>)
    ensures
        match r {
            Ok((j, st)) => stmt_at(input@, 0) == Some((stmt_view(st), j as int)),
            Err(e) => stmt_at(input@, 0) is None && e.offset == 0,
        },
{
    let s = chars_of(input);
    match stmt_x(&s, 0) {
        Some((st, j)) => Ok((j, st)),
        None => Err(ParseError { offset: 0 }),
    }
}

/// Parses one script (`fn`) at the start of `input`: the position after it
/// and the item.
pub fn item_function(input: &str) -> (r: Result<(usize, Item), ParseError>)
    ensures
        match r {
            Ok((j, it)) => item_function_at(input@, 0) == Some((item_view(it), j as int)),
            Err(e) => item_function_at(input@, 0) is None && e.offset == 0,
        },
{
    let s = chars_of(input);
    match item_function_x(&s, 0) {
        Some((it, j)) => Ok((j, it)),
        None => Err(ParseError { offset: 0 }),
    }
}

proof fn lemma_count_newlines(p: Seq<char>)
    ensures
        count_newlines(p) <= p.len(),
    decreases p.len(),
{
    if p.len() > 0 {
        lemma_count_newlines(p.drop_last());
    }
}

/// Where a parse error lies, as reported to the user: the line number (the
/// number of lines before `offset`, at least 1) and that line's text,
/// trimmed.
pub fn parse_error_location(src: &str, offset: usize) -> (r: (usize, String))
    requires
        offset <= src@.len(),
    ensures
        r.0 == error_line_number(src@, offset as int),
        r.1@ == trim(nth_line_from(src@, 0, (r.0 - 1) as nat)),
{
    let s = chars_of(src);
    let mut newlines: usize = 0;
    let mut k: usize = 0;
    while k < offset
        invariant
            k <= offset <= s.len(),
            s@ == src@,
            newlines == count_newlines(s@.subrange(0, k as int)),
            newlines <= k,
        decreases offset - k,
    {
        assert(s@.subrange(0, k + 1).drop_last() =~= s@.subrange(0, k as int));
        if s[k] == '\n' {
            newlines += 1;
        }
        k += 1;
    }
    let last_open = offset > 0 && s[offset - 1] != '\n';
    proof {
        if offset > 0 {
            lemma_count_newlines(s@.subrange(0, offset as int).drop_last());
        }
    }
    let count = if last_open { newlines + 1 } else { newlines };
    let line = if count == 0 { 1 } else { count };
    assert(line == error_line_number(src@, offset as int));
    // find the start of the wanted line
    let mut a: usize = 0;
    let mut n: usize = line - 1;
    let ghost n0: nat = (line - 1) as nat;
    loop
        invariant
            a <= s.len(),
            s@ == src@,
            nth_line_from(s@, a as int, n as nat) == nth_line_from(s@, 0, n0),
            line == error_line_number(src@, offset as int),
            n0 == line - 1,
        decreases s.len() - a,
    {
        if a >= s.len() {
            return (line, String::new());
        }
        let e = line_end_x(&s, a);
        proof {
            lemma_line_end(s@, a as int);
        }
        if n == 0 {
            let stop = if e < s.len() && e > a && s[e - 1] == '\r' { e - 1 } else { e };
            proof {
                let l = s@.subrange(a as int, e as int);
                if e < s.len() && e > a && s[e - 1] == '\r' {
                    assert(l.drop_last() =~= s@.subrange(a as int, stop as int));
                }
            }
            return (line, trim_x(&s, a, stop));
        }
        if e >= s.len() {
            return (line, String::new());
        }
        a = e + 1;
        n = n - 1;
    }
}

} // verus!
