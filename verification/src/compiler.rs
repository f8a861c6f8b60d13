//! Compiles a transformed program into the blocks, variables, lists,
//! costumes and sounds of one Scratch target.
//!
//! Block, variable, list and comment ids are random UUIDs (a block, variable
//! or list id is also checked to be new), so the contracts speak of what
//! holds whatever ids come out: the opcodes, inputs and fields of the blocks
//! a statement or expression makes and how they are linked, the blocks that
//! were there before staying in place, the stacks of bodies and top-level
//! scripts, and the names and values of the declared variables and lists.
use vstd::prelude::*;
use crate::ast::{
    Expr, ExprV, Stmt, StmtV, Op, UnOp, Type, NumLit, Item, ItemV, Param, ParamV, Program, AssetDeclV,
    ProcedureDef, Function, Visibility, VariableDecl, AssetDecl, exprs_view, stmts_view,
    strs_view, items_view, lemma_exprs_view, lemma_stmts_view, lemma_items_view, arms_view,
    lemma_arms_view,
};
use crate::sb3::{
    JsonValue, JsonV, Input, Field, Mutation, NormalBlock, Block, Comment, Costume, Sound,
    Target, json_view, jsons_view, input_view, field_view, lemma_jsons_view_push,
};
use crate::text::{str_eq, push_char, chars_of, digit_char};
use crate::transform::lit;

verus! {

broadcast use crate::text::lemma_add_assoc;

// ---------------------------------------------------------------------------
// Outside calls
// ---------------------------------------------------------------------------

/// `uuid::Uuid::new_v4().to_string()`: a random id, written as 32 lowercase
/// hexadecimal digits in groups of 8, 4, 4, 4 and 12 separated by hyphens.
/// Which id comes out is left open; two calls may even agree.
#[verifier::external_body]
fn new_id() -> (r: String)
    ensures
        r@.len() == 36,
        r@[8] == '-',
        r@[13] == '-',
        r@[18] == '-',
        r@[23] == '-',
{
    uuid::Uuid::new_v4().to_string()
}

/// The MD5 digest of a byte string, as computed by the `md5` crate.
pub uninterp spec fn md5_digest(data: Seq<u8>) -> Seq<u8>;

/// `md5::compute`: the 16 bytes of the MD5 digest of `data`.
#[verifier::external_body]
fn md5_compute(data: &Vec<u8>) -> (r: [u8; 16])
    ensures
        r@ == md5_digest(data@),
{
    md5::compute(data).0
}

/// The JSON text that `serde_json` writes for an array of strings.
pub uninterp spec fn json_string_array(s: Seq<Seq<char>>) -> Seq<char>;

/// `serde_json::to_string` on a list of strings, which cannot fail; the
/// escaping rules are not restated, only that the text is a function of the
/// strings.
#[verifier::external_body]
fn json_strings(v: &Vec<String>) -> (r: String)
    ensures
        r@ == json_string_array(strs_view(v@)),
{
    serde_json::to_string(v).unwrap()
}

/// What `std`'s `str::to_uppercase` gives for a string.
pub uninterp spec fn unicode_uppercase(s: Seq<char>) -> Seq<char>;

/// `std`'s `str::to_uppercase`, by the Unicode uppercase mapping, which is
/// not restated here.
#[verifier::external_body]
fn to_uppercase(s: &str) -> (r: String)
    ensures
        r@ == unicode_uppercase(s@),
{
    s.to_uppercase()
}

// ---------------------------------------------------------------------------
// Hexadecimal digests
// ---------------------------------------------------------------------------

pub open spec fn hex_digit(n: nat) -> char {
    if n < 10 {
        digit_char(n)
    } else if n == 10 {
        'a'
    } else if n == 11 {
        'b'
    } else if n == 12 {
        'c'
    } else if n == 13 {
        'd'
    } else if n == 14 {
        'e'
    } else {
        'f'
    }
}

/// Each byte as two lowercase hexadecimal digits, high digit first.
pub open spec fn hex_lower(b: Seq<u8>) -> Seq<char>
    decreases b.len(),
{
    if b.len() == 0 {
        Seq::empty()
    } else {
        hex_lower(b.subrange(0, b.len() - 1)) + seq![
            hex_digit((b[b.len() - 1] / 16) as nat),
            hex_digit((b[b.len() - 1] % 16) as nat),
        ]
    }
}

fn hex_char(n: u8) -> (c: char)
    requires
        n < 16,
    ensures
        c == hex_digit(n as nat),
{
    if n == 0 { '0' } else if n == 1 { '1' } else if n == 2 { '2' } else if n == 3 { '3' }
    else if n == 4 { '4' } else if n == 5 { '5' } else if n == 6 { '6' } else if n == 7 { '7' }
    else if n == 8 { '8' } else if n == 9 { '9' } else if n == 10 { 'a' } else if n == 11 { 'b' }
    else if n == 12 { 'c' } else if n == 13 { 'd' } else if n == 14 { 'e' } else { 'f' }
}

/// The lowercase hexadecimal text of the MD5 digest of `data`, which names an
/// asset in the project.
pub fn md5_hex(data: &Vec<u8>) -> (r: String)
    ensures
        r@ == hex_lower(md5_digest(data@)),
{
    let d = md5_compute(data);
    let mut s = String::new();
    let mut i: usize = 0;
    while i < 16
        invariant
            i <= 16,
            d@.len() == 16,
            s@ == hex_lower(d@.subrange(0, i as int)),
        decreases 16 - i,
    {
        let b = d[i];
        push_char(&mut s, hex_char(b / 16));
        push_char(&mut s, hex_char(b % 16));
        assert(d@.subrange(0, i + 1).subrange(0, i as int) =~= d@.subrange(0, i as int));
        i += 1;
    }
    assert(d@.subrange(0, 16) =~= d@);
    s
}

// ---------------------------------------------------------------------------
// Maps from ids, as association lists
// ---------------------------------------------------------------------------

/// The index of the entry for `k`, or -1.
pub open spec fn kv_index<T>(s: Seq<(String, T)>, k: Seq<char>) -> int
    decreases s.len(),
{
    if s.len() == 0 {
        -1
    } else {
        let r = kv_index(s.subrange(0, s.len() - 1), k);
        if r >= 0 {
            r
        } else if s[s.len() - 1].0@ == k {
            s.len() - 1
        } else {
            -1
        }
    }
}

pub open spec fn kv_get<T>(s: Seq<(String, T)>, k: Seq<char>) -> Option<T> {
    if kv_index(s, k) >= 0 {
        Some(s[kv_index(s, k)].1)
    } else {
        None
    }
}

/// A map's `insert`: the entry for `k` is replaced in place, or added last.
pub open spec fn kv_set<T>(s: Seq<(String, T)>, k: String, v: T) -> Seq<(String, T)> {
    if kv_index(s, k@) >= 0 {
        s.update(kv_index(s, k@), (k, v))
    } else {
        s.push((k, v))
    }
}

pub open spec fn kv_keys<T>(s: Seq<(String, T)>) -> Seq<Seq<char>> {
    s.map_values(|e: (String, T)| e.0@)
}

proof fn lemma_kv_index<T>(s: Seq<(String, T)>, k: Seq<char>)
    ensures
        -1 <= kv_index(s, k) < s.len(),
        kv_index(s, k) >= 0 ==> s[kv_index(s, k)].0@ == k,
        kv_index(s, k) >= 0 ==> forall|j: int| 0 <= j < kv_index(s, k) ==> #[trigger] s[j].0@ != k,
        kv_index(s, k) < 0 ==> forall|j: int| 0 <= j < s.len() ==> #[trigger] s[j].0@ != k,
    decreases s.len(),
{
    if s.len() > 0 {
        let init = s.subrange(0, s.len() - 1);
        lemma_kv_index(init, k);
        if kv_index(init, k) >= 0 {
            assert(init[kv_index(init, k)] == s[kv_index(init, k)]);
            assert forall|j: int| 0 <= j < kv_index(s, k) implies #[trigger] s[j].0@ != k by {
                assert(init[j] == s[j]);
            }
        } else {
            assert forall|j: int| 0 <= j < s.len() - 1 implies #[trigger] s[j].0@ != k by {
                assert(init[j] == s[j]);
            }
        }
    }
}

proof fn lemma_kv_index_prefix<T>(s: Seq<(String, T)>, i: int, k: Seq<char>)
    requires
        0 <= i <= s.len(),
        forall|j: int| 0 <= j < i ==> #[trigger] s[j].0@ != k,
        i < s.len() ==> s[i].0@ == k,
    ensures
        kv_index(s, k) == if i < s.len() { i } else { -1 },
    decreases s.len(),
{
    lemma_kv_index(s, k);
    if kv_index(s, k) >= 0 {
        assert(s[kv_index(s, k)].0@ == k);
    }
}

fn kv_find<T>(m: &Vec<(String, T)>, k: &str) -> (r: Option<usize>)
    ensures
        match r {
            Some(i) => i as int == kv_index(m@, k@) && i < m@.len(),
            None => kv_index(m@, k@) == -1,
        },
{
    let mut i: usize = 0;
    while i < m.len()
        invariant
            i <= m.len(),
            forall|j: int| 0 <= j < i ==> #[trigger] m@[j].0@ != k@,
        decreases m.len() - i,
    {
        if str_eq(m[i].0.as_str(), k) {
            proof {
                lemma_kv_index_prefix(m@, i as int, k@);
            }
            return Some(i);
        }
        i += 1;
    }
    proof {
        lemma_kv_index_prefix(m@, i as int, k@);
    }
    None
}

/// A map's `insert` on an association list.
fn kv_insert<T>(m: &mut Vec<(String, T)>, k: String, v: T)
    ensures
        final(m)@ == kv_set(old(m)@, k, v),
{
    match kv_find(m, k.as_str()) {
        Some(i) => {
            m.set(i, (k, v));
        },
        None => {
            m.push((k, v));
        },
    }
}

/// A key that no entry of `m` has: a new random id, or, in the unlikely
/// case that it is taken, one longer than every key in use.
fn fresh_key<T>(m: &Vec<(String, T)>) -> (r: String)
    ensures
        kv_index(m@, r@) < 0,
{
    let id = new_id();
    if kv_find(m, id.as_str()).is_none() {
        return id;
    }
    let mut s = id;
    let mut i: usize = 0;
    while i < m.len()
        invariant
            i <= m.len(),
            forall|j: int| 0 <= j < i ==> (#[trigger] m@[j]).0@.len() < s@.len(),
        decreases m.len() - i,
    {
        let key = chars_of(m[i].0.as_str());
        let cur = chars_of(s.as_str());
        if key.len() >= cur.len() {
            s = m[i].0.clone();
            push_char(&mut s, '0');
        }
        i += 1;
    }
    proof {
        lemma_kv_index(m@, s@);
    }
    s
}

/// `b` begins with `a`.
pub open spec fn prefix_of<T>(a: Seq<T>, b: Seq<T>) -> bool {
    &&& a.len() <= b.len()
    &&& forall|j: int| 0 <= j < a.len() ==> #[trigger] b[j] == a[j]
}

// ---------------------------------------------------------------------------
// The compiler's state
// ---------------------------------------------------------------------------

/// Why a program cannot be compiled.
#[derive(Debug)]
pub enum CompileError {
    /// A call names neither a known block nor a procedure of the target.
    UnknownBlock(String),
    /// A known block is called with fewer arguments than it reads; the
    /// number is how many it reads.
    TooFewArguments(String, usize),
    /// Two procedures share a name but not their number of parameters.
    ParameterMismatch(String),
}

/// What the compiler records of a procedure before compiling its body: its
/// prototype text (`name %n %s %b`), its argument ids and names, and whether
/// it runs without screen refresh.
#[derive(Debug)]
pub struct ProcedureInfo {
    pub proccode: String,
    pub arg_ids: Vec<String>,
    pub arg_names: Vec<String>,
    pub warp: bool,
}

impl ProcedureInfo {
    pub fn duplicate(&self) -> (r: ProcedureInfo)
        ensures
            r.proccode@ == self.proccode@,
            strs_view(r.arg_ids@) == strs_view(self.arg_ids@),
            strs_view(r.arg_names@) == strs_view(self.arg_names@),
            r.warp == self.warp,
    {
        ProcedureInfo {
            proccode: self.proccode.clone(),
            arg_ids: crate::ast::copy_strings(&self.arg_ids),
            arg_names: crate::ast::copy_strings(&self.arg_names),
            warp: self.warp,
        }
    }
}

/// Everything a target accumulates while it is compiled. The globals are
/// the stage's variables and lists, which a sprite may read.
pub struct CompilerContext {
    pub blocks: Vec<(String, Block)>,
    pub variables: Vec<(String, (String, JsonValue))>,
    pub lists: Vec<(String, (String, Vec<JsonValue>))>,
    pub broadcast_map: Vec<(String, String)>,
    pub costumes: Vec<Costume>,
    pub sounds: Vec<Sound>,
    pub comments: Vec<(String, Comment)>,
    pub global_variables: Option<Vec<(String, (String, JsonValue))>>,
    pub global_lists: Option<Vec<(String, (String, Vec<JsonValue>))>>,
    pub asset_instructions: Vec<(String, String)>,
    pub procedures: Vec<(String, ProcedureInfo)>,
    pub current_proc_args: Option<Vec<(String, Type)>>,
}

/// The block with id `id`, when it is a normal block.
pub open spec fn normal_at(blocks: Seq<(String, Block)>, id: Seq<char>) -> Option<NormalBlock> {
    match kv_get(blocks, id) {
        Some(Block::Normal(b)) => Some(b),
        _ => None,
    }
}

pub open spec fn opcode_at(blocks: Seq<(String, Block)>, id: Seq<char>) -> Option<Seq<char>> {
    match normal_at(blocks, id) {
        Some(b) => Some(b.opcode@),
        None => None,
    }
}

/// `blocks` with the normal block `id`, if there is one, changed by `f`.
pub open spec fn block_update(
    blocks: Seq<(String, Block)>,
    id: Seq<char>,
    f: spec_fn(NormalBlock) -> NormalBlock,
) -> Seq<(String, Block)> {
    let i = kv_index(blocks, id);
    if i >= 0 && blocks[i].1 is Normal {
        blocks.update(i, (blocks[i].0, Block::Normal(f(blocks[i].1->Normal_0))))
    } else {
        blocks
    }
}

/// The context changed at most in its blocks, comments and broadcasts.
pub open spec fn data_same(a: CompilerContext, b: CompilerContext) -> bool {
    &&& b.variables == a.variables
    &&& b.lists == a.lists
    &&& b.costumes == a.costumes
    &&& b.sounds == a.sounds
    &&& b.global_variables == a.global_variables
    &&& b.global_lists == a.global_lists
    &&& b.asset_instructions == a.asset_instructions
    &&& b.procedures == a.procedures
    &&& b.current_proc_args == a.current_proc_args
    &&& blocks_kept(a.blocks@, b.blocks@)
}

/// A comment of the default size, not minimized.
pub open spec fn comment_of(block_id: Option<String>, text: String, x: i64, y: i64) -> Comment {
    Comment { block_id, x, y, width: 200, height: 200, minimized: false, text }
}

impl CompilerContext {
    /// An empty context that reads the given globals.
    pub fn new(
        global_variables: Option<Vec<(String, (String, JsonValue))>>,
        global_lists: Option<Vec<(String, (String, Vec<JsonValue>))>>,
    ) -> (r: CompilerContext)
        ensures
            r.blocks@.len() == 0,
            r.variables@.len() == 0,
            r.lists@.len() == 0,
            r.broadcast_map@.len() == 0,
            r.costumes@.len() == 0,
            r.sounds@.len() == 0,
            r.comments@.len() == 0,
            r.global_variables == global_variables,
            r.global_lists == global_lists,
            r.asset_instructions@.len() == 0,
            r.procedures@.len() == 0,
            r.current_proc_args is None,
    {
        CompilerContext {
            blocks: Vec::new(),
            variables: Vec::new(),
            lists: Vec::new(),
            broadcast_map: Vec::new(),
            costumes: Vec::new(),
            sounds: Vec::new(),
            comments: Vec::new(),
            global_variables,
            global_lists,
            asset_instructions: Vec::new(),
            procedures: Vec::new(),
            current_proc_args: None,
        }
    }

    /// Applies `f` to the normal block `id`, if there is one.
    fn set_parent(&mut self, id: &str, parent: Option<String>)
        ensures
            final(self).blocks@ == block_update(
                old(self).blocks@,
                id@,
                |b: NormalBlock| NormalBlock { parent, ..b },
            ),
            final(self).comments == old(self).comments,
            final(self).broadcast_map == old(self).broadcast_map,
            data_same(*old(self), *final(self)),
    {
        match kv_find(&self.blocks, id) {
            Some(i) => {
                match &mut self.blocks[i].1 {
                    Block::Normal(b) => {
                        b.parent = parent;
                    },
                    _ => {},
                }
                proof {
                    lemma_set_kept(old(self).blocks@, self.blocks@, i as int);
                }
            },
            None => {},
        }
    }

    fn set_next(&mut self, id: &str, next: Option<String>)
        ensures
            final(self).blocks@ == block_update(
                old(self).blocks@,
                id@,
                |b: NormalBlock| NormalBlock { next, ..b },
            ),
            final(self).comments == old(self).comments,
            final(self).broadcast_map == old(self).broadcast_map,
            data_same(*old(self), *final(self)),
    {
        match kv_find(&self.blocks, id) {
            Some(i) => {
                match &mut self.blocks[i].1 {
                    Block::Normal(b) => {
                        b.next = next;
                    },
                    _ => {},
                }
                proof {
                    lemma_set_kept(old(self).blocks@, self.blocks@, i as int);
                }
            },
            None => {},
        }
    }

    fn set_comment_ref(&mut self, id: &str, cid: Option<String>)
        ensures
            final(self).blocks@ == block_update(
                old(self).blocks@,
                id@,
                |b: NormalBlock| NormalBlock { comment: cid, ..b },
            ),
            final(self).comments == old(self).comments,
            final(self).broadcast_map == old(self).broadcast_map,
            data_same(*old(self), *final(self)),
    {
        match kv_find(&self.blocks, id) {
            Some(i) => {
                match &mut self.blocks[i].1 {
                    Block::Normal(b) => {
                        b.comment = cid;
                    },
                    _ => {},
                }
                proof {
                    lemma_set_kept(old(self).blocks@, self.blocks@, i as int);
                }
            },
            None => {},
        }
    }

    /// Marks the normal block `id` as the top of a script at (0, 0).
    fn set_top_level(&mut self, id: &str)
        ensures
            final(self).blocks@ == block_update(
                old(self).blocks@,
                id@,
                |b: NormalBlock| NormalBlock { top_level: true, x: Some(0i64), y: Some(0i64), ..b },
            ),
            final(self).comments == old(self).comments,
            final(self).broadcast_map == old(self).broadcast_map,
            data_same(*old(self), *final(self)),
    {
        match kv_find(&self.blocks, id) {
            Some(i) => {
                match &mut self.blocks[i].1 {
                    Block::Normal(b) => {
                        b.top_level = true;
                        b.x = Some(0);
                        b.y = Some(0);
                    },
                    _ => {},
                }
                proof {
                    lemma_set_kept(old(self).blocks@, self.blocks@, i as int);
                }
            },
            None => {},
        }
    }

    /// Adds a comment under a fresh id; when it belongs to a normal block,
    /// the block points back at it.
    pub fn add_comment(&mut self, block_id: Option<String>, text: String, x: i64, y: i64)
        ensures
            exists|cid: String|
                {
                    &&& final(self).comments@ == kv_set(
                        old(self).comments@,
                        cid,
                        comment_of(block_id, text, x, y),
                    )
                    &&& final(self).blocks@ == match block_id {
                        Some(bid) => block_update(
                            old(self).blocks@,
                            bid@,
                            |b: NormalBlock| NormalBlock { comment: Some(cid), ..b },
                        ),
                        None => old(self).blocks@,
                    }
                },
            final(self).broadcast_map == old(self).broadcast_map,
            data_same(*old(self), *final(self)),
    {
        let comment_id = new_id();
        let bid2 = match &block_id {
            Some(b) => Some(b.clone()),
            None => None,
        };
        let c = Comment { block_id, x, y, width: 200, height: 200, minimized: false, text };
        kv_insert(&mut self.comments, comment_id.clone(), c);
        match bid2 {
            Some(bid) => self.set_comment_ref(bid.as_str(), Some(comment_id.clone())),
            None => {},
        }
    }

    /// An id that no block has.
    fn fresh_block_id(&self) -> (r: String)
        ensures
            kv_index(self.blocks@, r@) < 0,
    {
        fresh_key(&self.blocks)
    }

    /// Adds a block under a fresh id, and returns the id.
    pub fn add_block(&mut self, block: NormalBlock) -> (id: String)
        ensures
            kv_index(old(self).blocks@, id@) < 0,
            final(self).blocks@ == old(self).blocks@.push((id, Block::Normal(block))),
            final(self).blocks@ == kv_set(old(self).blocks@, id, Block::Normal(block)),
            kv_index(final(self).blocks@, id@) == old(self).blocks@.len(),
            normal_at(final(self).blocks@, id@) == Some(block),
            final(self).comments == old(self).comments,
            final(self).broadcast_map == old(self).broadcast_map,
            data_same(*old(self), *final(self)),
    {
        let id = self.fresh_block_id();
        proof {
            lemma_push_fresh(self.blocks@, id, block);
            lemma_kv_index(self.blocks@, id@);
            assert forall|j: int| 0 <= j < self.blocks@.len() implies #[trigger] self.blocks@.push((id, Block::Normal(block)))[j].0@ != id@ by {
                assert(self.blocks@.push((id, Block::Normal(block)))[j] == self.blocks@[j]);
            }
            lemma_kv_index_prefix(self.blocks@.push((id, Block::Normal(block))), self.blocks@.len() as int, id@);
        }
        self.blocks.push((id.clone(), Block::Normal(block)));
        id
    }

    /// Adds a variable under a fresh id, and returns the id.
    pub fn add_variable(&mut self, name: String, val: JsonValue) -> (id: String)
        ensures
            final(self).variables@ == kv_set(old(self).variables@, id, (name, val)),
            final(self).variables@ == old(self).variables@.push((id, (name, val))),
            final(self).blocks == old(self).blocks,
            final(self).comments == old(self).comments,
            final(self).lists == old(self).lists,
            final(self).broadcast_map == old(self).broadcast_map,
            final(self).costumes == old(self).costumes,
            final(self).sounds == old(self).sounds,
            final(self).procedures == old(self).procedures,
            final(self).global_variables == old(self).global_variables,
            final(self).global_lists == old(self).global_lists,
            final(self).asset_instructions == old(self).asset_instructions,
            final(self).current_proc_args == old(self).current_proc_args,
    {
        let id = fresh_key(&self.variables);
        self.variables.push((id.clone(), (name, val)));
        id
    }

    /// Adds a list under a fresh id, and returns the id.
    pub fn add_list(&mut self, name: String, val: Vec<JsonValue>) -> (id: String)
        ensures
            final(self).lists@ == kv_set(old(self).lists@, id, (name, val)),
            final(self).lists@ == old(self).lists@.push((id, (name, val))),
            final(self).blocks == old(self).blocks,
            final(self).comments == old(self).comments,
            final(self).variables == old(self).variables,
            final(self).broadcast_map == old(self).broadcast_map,
            final(self).costumes == old(self).costumes,
            final(self).sounds == old(self).sounds,
            final(self).procedures == old(self).procedures,
            final(self).global_variables == old(self).global_variables,
            final(self).global_lists == old(self).global_lists,
            final(self).asset_instructions == old(self).asset_instructions,
            final(self).current_proc_args == old(self).current_proc_args,
    {
        let id = fresh_key(&self.lists);
        self.lists.push((id.clone(), (name, val)));
        id
    }
}

// ---------------------------------------------------------------------------
// Inputs, fields and blocks
// ---------------------------------------------------------------------------

/// `[1, [kind, v]]`: a shadow holding a primitive (4 a number, 10 a text).
pub open spec fn prim_input(kind: int, v: JsonV) -> Seq<JsonV> {
    seq![JsonV::Int(1), JsonV::Array(seq![JsonV::Int(kind), v])]
}

/// `[2, id]`: the block `id`.
pub open spec fn block_input(id: Seq<char>) -> Seq<JsonV> {
    seq![JsonV::Int(2), JsonV::Str(id)]
}

/// `[1, [10, ""]]`: an empty text.
pub open spec fn empty_text_input() -> Seq<JsonV> {
    prim_input(10, JsonV::Str(Seq::empty()))
}

/// The block an input points at: its second element, when that is a string.
pub open spec fn input_child(i: Input) -> Option<Seq<char>> {
    let v = input_view(i);
    if v.len() >= 2 && v[1] is Str {
        Some(v[1]->Str_0)
    } else {
        None
    }
}

/// The blocks the inputs point at, in order.
pub open spec fn children(inputs: Seq<(String, Input)>) -> Seq<Seq<char>>
    decreases inputs.len(),
{
    if inputs.len() == 0 {
        Seq::empty()
    } else {
        let r = children(inputs.subrange(0, inputs.len() - 1));
        match input_child(inputs[inputs.len() - 1].1) {
            Some(c) => r.push(c),
            None => r,
        }
    }
}

/// `blocks` with the parent of each of `ids` set to `pid`.
pub open spec fn reparent(blocks: Seq<(String, Block)>, ids: Seq<Seq<char>>, pid: Option<String>) -> Seq<(String, Block)>
    decreases ids.len(),
{
    if ids.len() == 0 {
        blocks
    } else {
        block_update(
            reparent(blocks, ids.subrange(0, ids.len() - 1), pid),
            ids[ids.len() - 1],
            |b: NormalBlock| NormalBlock { parent: pid, ..b },
        )
    }
}

fn prim(kind: i64, v: JsonValue) -> (r: Input)
    ensures
        input_view(r) == prim_input(kind as int, v@),
{
    let mut inner: Vec<JsonValue> = Vec::new();
    let ghost vv = v@;
    inner.push(JsonValue::Int(kind));
    inner.push(v);
    assert(jsons_view(inner@) =~= seq![JsonV::Int(kind as int), vv]) by {
        lemma_jsons_view_push(seq![JsonValue::Int(kind)], inner@[1]);
        assert(inner@ =~= seq![JsonValue::Int(kind)].push(inner@[1]));
        assert(seq![JsonValue::Int(kind)] =~= Seq::<JsonValue>::empty().push(JsonValue::Int(kind)));
        lemma_jsons_view_push(Seq::<JsonValue>::empty(), JsonValue::Int(kind));
    }
    let arr = JsonValue::Array(inner);
    let ghost av = arr@;
    let mut outer: Vec<JsonValue> = Vec::new();
    outer.push(JsonValue::Int(1));
    outer.push(arr);
    assert(jsons_view(outer@) =~= seq![JsonV::Int(1), av]) by {
        lemma_jsons_view_push(Seq::<JsonValue>::empty(), JsonValue::Int(1));
        assert(seq![JsonValue::Int(1)] =~= Seq::<JsonValue>::empty().push(JsonValue::Int(1)));
        assert(outer@ =~= seq![JsonValue::Int(1)].push(outer@[1]));
        lemma_jsons_view_push(seq![JsonValue::Int(1)], outer@[1]);
    }
    Input::Generic(outer)
}

fn json_list2(a: JsonValue, b: JsonValue) -> (r: Vec<JsonValue>)
    ensures
        jsons_view(r@) == seq![a@, b@],
{
    let ghost (av, bv) = (a@, b@);
    let mut v: Vec<JsonValue> = Vec::new();
    proof {
        lemma_jsons_view_push(v@, a);
    }
    v.push(a);
    proof {
        lemma_jsons_view_push(v@, b);
    }
    v.push(b);
    assert(jsons_view(v@) =~= seq![av, bv]);
    v
}

fn json_list3(a: JsonValue, b: JsonValue, c: JsonValue) -> (r: Vec<JsonValue>)
    ensures
        jsons_view(r@) == seq![a@, b@, c@],
{
    let ghost (av, bv, cv) = (a@, b@, c@);
    let mut v = json_list2(a, b);
    proof {
        lemma_jsons_view_push(v@, c);
    }
    v.push(c);
    assert(jsons_view(v@) =~= seq![av, bv, cv]);
    v
}

fn jtext(s: &str) -> (r: JsonValue)
    ensures
        r@ == JsonV::Str(s@),
{
    JsonValue::Str(lit(s))
}

fn text_input(s: &str) -> (r: Input)
    ensures
        input_view(r) == prim_input(10, JsonV::Str(s@)),
{
    prim(10, jtext(s))
}

fn empty_text() -> (r: Input)
    ensures
        input_view(r) == empty_text_input(),
{
    proof {
        reveal_strlit("");
        assert(""@ =~= Seq::<char>::empty());
    }
    text_input("")
}

fn block_ref(id: &String) -> (r: Input)
    ensures
        input_view(r) == block_input(id@),
        input_child(r) == Some(id@),
{
    Input::Generic(json_list2(JsonValue::Int(2), JsonValue::Str(id.clone())))
}

fn field2(a: JsonValue, b: JsonValue) -> (r: Field)
    ensures
        field_view(r) == seq![a@, b@],
{
    Field::Generic(json_list2(a, b))
}

/// `[value, null]`
pub open spec fn plain_field(v: Seq<char>) -> Seq<JsonV> {
    seq![JsonV::Str(v), JsonV::Null]
}

fn input_child_of(i: &Input) -> (r: Option<String>)
    ensures
        match r {
            Some(c) => input_child(*i) == Some(c@),
            None => input_child(*i) is None,
        },
{
    match i {
        Input::Generic(vals) => {
            proof {
                crate::sb3::lemma_jsons_view(vals@);
            }
            if vals.len() >= 2 {
                match &vals[1] {
                    JsonValue::Str(s) => Some(s.clone()),
                    _ => None,
                }
            } else {
                None
            }
        },
    }
}

fn child_ids(inputs: &Vec<(String, Input)>) -> (r: Vec<String>)
    ensures
        strs_view(r@) == children(inputs@),
{
    let mut out: Vec<String> = Vec::new();
    let mut i: usize = 0;
    assert(strs_view(out@) =~= children(inputs@.subrange(0, 0)));
    while i < inputs.len()
        invariant
            i <= inputs.len(),
            strs_view(out@) == children(inputs@.subrange(0, i as int)),
        decreases inputs.len() - i,
    {
        assert(inputs@.subrange(0, i + 1).subrange(0, i as int) =~= inputs@.subrange(0, i as int));
        match input_child_of(&inputs[i].1) {
            Some(c) => crate::transform::push_name(&mut out, &c),
            None => {},
        }
        i += 1;
    }
    assert(inputs@.subrange(0, i as int) =~= inputs@);
    out
}

proof fn lemma_kv_index_keys<T, U>(a: Seq<(String, T)>, b: Seq<(String, U)>, k: Seq<char>)
    requires
        a.len() == b.len(),
        forall|j: int| 0 <= j < a.len() ==> #[trigger] a[j].0@ == b[j].0@,
    ensures
        kv_index(a, k) == kv_index(b, k),
    decreases a.len(),
{
    if a.len() > 0 {
        let ai = a.subrange(0, a.len() - 1);
        let bi = b.subrange(0, b.len() - 1);
        assert forall|j: int| 0 <= j < ai.len() implies #[trigger] ai[j].0@ == bi[j].0@ by {
            assert(ai[j] == a[j]);
            assert(bi[j] == b[j]);
        }
        lemma_kv_index_keys(ai, bi, k);
    }
}

/// Updating one block leaves every other block where it was, and as it was.
proof fn lemma_block_update_other(
    blocks: Seq<(String, Block)>,
    c: Seq<char>,
    f: spec_fn(NormalBlock) -> NormalBlock,
    id: Seq<char>,
)
    ensures
        kv_index(block_update(blocks, c, f), id) == kv_index(blocks, id),
        c != id ==> kv_get(block_update(blocks, c, f), id) == kv_get(blocks, id),
        c == id ==> normal_at(block_update(blocks, c, f), id) == match normal_at(blocks, id) {
            Some(b) => Some(f(b)),
            None => None,
        },
{
    let nb = block_update(blocks, c, f);
    lemma_kv_index(blocks, c);
    lemma_kv_index(blocks, id);
    assert forall|j: int| 0 <= j < blocks.len() implies #[trigger] nb[j].0@ == blocks[j].0@ by {}
    lemma_kv_index_keys(nb, blocks, id);
}

/// What a block keeps once it is made: its opcode, inputs, fields, mutation
/// and whether it is a shadow. Its links, comment and place are filled in
/// later.
pub open spec fn same_content(a: NormalBlock, b: NormalBlock) -> bool {
    &&& b.opcode == a.opcode
    &&& b.inputs == a.inputs
    &&& b.fields == a.fields
    &&& b.mutation == a.mutation
    &&& b.shadow == a.shadow
}

/// Every id of `a` is still an id of `b`, and every normal block of `a` is
/// still there with the same content.
pub open spec fn blocks_kept(a: Seq<(String, Block)>, b: Seq<(String, Block)>) -> bool {
    &&& forall|k: Seq<char>| #[trigger] kv_index(a, k) >= 0 ==> kv_index(b, k) >= 0
    &&& forall|k: Seq<char>|
        (#[trigger] normal_at(a, k)) is Some ==> (normal_at(b, k) is Some && same_content(
            normal_at(a, k)->0,
            normal_at(b, k)->0,
        ))
}

/// Changing the links or comment of the block at one index keeps the rest.
proof fn lemma_set_kept(a: Seq<(String, Block)>, b: Seq<(String, Block)>, i: int)
    requires
        0 <= i < a.len(),
        a.len() == b.len(),
        forall|j: int| 0 <= j < a.len() && j != i ==> #[trigger] b[j] == a[j],
        b[i].0 == a[i].0,
        a[i].1 is Normal ==> (b[i].1 is Normal && same_content(a[i].1->Normal_0, b[i].1->Normal_0)),
        !(a[i].1 is Normal) ==> b[i] == a[i],
    ensures
        blocks_kept(a, b),
{
    assert forall|j: int| 0 <= j < a.len() implies #[trigger] a[j].0@ == b[j].0@ by {}
    assert forall|k: Seq<char>| #[trigger] kv_index(a, k) >= 0 implies kv_index(b, k) >= 0 by {
        lemma_kv_index_keys(a, b, k);
    }
    assert forall|k: Seq<char>| (#[trigger] normal_at(a, k)) is Some implies (normal_at(b, k) is Some
        && same_content(normal_at(a, k)->0, normal_at(b, k)->0)) by {
        lemma_kv_index_keys(a, b, k);
        lemma_kv_index(a, k);
        let x = kv_index(a, k);
        if x != i {
            assert(b[x] == a[x]);
        }
    }
}

proof fn lemma_update_kept(blocks: Seq<(String, Block)>, c: Seq<char>, f: spec_fn(NormalBlock) -> NormalBlock)
    requires
        forall|b: NormalBlock| same_content(b, #[trigger] f(b)),
    ensures
        blocks_kept(blocks, block_update(blocks, c, f)),
{
    assert forall|k: Seq<char>| (#[trigger] normal_at(blocks, k)) is Some implies (normal_at(block_update(blocks, c, f), k) is Some
        && same_content(normal_at(blocks, k)->0, normal_at(block_update(blocks, c, f), k)->0)) by {
        lemma_block_update_other(blocks, c, f, k);
    }
    assert forall|k: Seq<char>| #[trigger] kv_index(blocks, k) >= 0 implies kv_index(block_update(blocks, c, f), k) >= 0 by {
        lemma_block_update_other(blocks, c, f, k);
    }
}

/// Adding an entry under a new id keeps every entry, and the new one is
/// found under its id.
proof fn lemma_push_fresh(blocks: Seq<(String, Block)>, id: String, b: NormalBlock)
    requires
        kv_index(blocks, id@) < 0,
    ensures
        blocks_kept(blocks, blocks.push((id, Block::Normal(b)))),
        normal_at(blocks.push((id, Block::Normal(b))), id@) == Some(b),
        forall|k: Seq<char>| #[trigger] kv_index(blocks, k) >= 0 ==> normal_at(blocks.push((id, Block::Normal(b))), k) == normal_at(blocks, k),
{
    let t = blocks.push((id, Block::Normal(b)));
    assert(t.subrange(0, blocks.len() as int) =~= blocks);
    assert forall|k: Seq<char>| #[trigger] kv_index(blocks, k) >= 0 implies kv_index(t, k) == kv_index(blocks, k) by {}
    assert forall|k: Seq<char>| #[trigger] kv_index(blocks, k) >= 0 implies normal_at(t, k) == normal_at(blocks, k) by {
        lemma_kv_index(blocks, k);
        assert(t[kv_index(blocks, k)] == blocks[kv_index(blocks, k)]);
    }
    assert forall|k: Seq<char>| (#[trigger] normal_at(blocks, k)) is Some implies (normal_at(t, k) is Some
        && same_content(normal_at(blocks, k)->0, normal_at(t, k)->0)) by {
        lemma_kv_index(blocks, k);
        assert(kv_index(blocks, k) >= 0);
        assert(kv_index(t, k) == kv_index(blocks, k));
        assert(t[kv_index(blocks, k)] == blocks[kv_index(blocks, k)]);
    }
    lemma_kv_index(blocks, id@);
    lemma_kv_index_prefix(t, blocks.len() as int, id@);
}

proof fn lemma_reparent_kept(blocks: Seq<(String, Block)>, ids: Seq<Seq<char>>, pid: Option<String>)
    ensures
        blocks_kept(blocks, reparent(blocks, ids, pid)),
        forall|k: Seq<char>| #[trigger] kv_index(reparent(blocks, ids, pid), k) == kv_index(blocks, k),
    decreases ids.len(),
{
    if ids.len() > 0 {
        let init = ids.subrange(0, ids.len() - 1);
        lemma_reparent_kept(blocks, init, pid);
        let prev = reparent(blocks, init, pid);
        lemma_update_kept(prev, ids[ids.len() - 1], |b: NormalBlock| NormalBlock { parent: pid, ..b });
        assert forall|k: Seq<char>| #[trigger] kv_index(reparent(blocks, ids, pid), k) == kv_index(blocks, k) by {
            lemma_block_update_other(prev, ids[ids.len() - 1], |b: NormalBlock| NormalBlock { parent: pid, ..b }, k);
        }
    }
}

/// `b` begins with `a`: every block of `a` is still there, unchanged and in
/// its place, and the blocks added since come after them.
pub open spec fn blocks_extend(a: Seq<(String, Block)>, b: Seq<(String, Block)>) -> bool {
    &&& a.len() <= b.len()
    &&& forall|j: int| 0 <= j < a.len() ==> #[trigger] b[j] == a[j]
}

/// The block an input points at, if any, was added at or after position
/// `l`.
pub open spec fn input_new(i: Input, l: int, blocks: Seq<(String, Block)>) -> bool {
    input_child(i) matches Some(c) ==> kv_index(blocks, c) >= l
}

pub open spec fn inputs_new(inputs: Seq<(String, Input)>, l: int, blocks: Seq<(String, Block)>) -> bool {
    forall|q: int| 0 <= q < inputs.len() ==> input_new(#[trigger] inputs[q].1, l, blocks)
}

/// An entry is found at or before its own position.
proof fn lemma_kv_index_at<T>(s: Seq<(String, T)>, j: int)
    requires
        0 <= j < s.len(),
    ensures
        0 <= kv_index(s, s[j].0@) <= j,
{
    lemma_kv_index(s, s[j].0@);
}

/// Growing a list of blocks at its end keeps where each old id is found.
proof fn lemma_extend_index(a: Seq<(String, Block)>, b: Seq<(String, Block)>, k: Seq<char>)
    requires
        blocks_extend(a, b),
        kv_index(a, k) >= 0,
    ensures
        kv_index(b, k) == kv_index(a, k),
        normal_at(b, k) == normal_at(a, k),
{
    lemma_kv_index(a, k);
    let x = kv_index(a, k);
    assert(b[x] == a[x]);
    assert forall|j: int| 0 <= j < x implies #[trigger] b[j].0@ != k by {
        assert(b[j] == a[j]);
    }
    lemma_kv_index_prefix(b, x, k);
}

proof fn lemma_extend_input_new(i: Input, l: int, a: Seq<(String, Block)>, b: Seq<(String, Block)>)
    requires
        input_new(i, l, a),
        blocks_extend(a, b),
        input_child(i) matches Some(c) ==> kv_index(a, c) >= 0,
    ensures
        input_new(i, l, b),
{
    if input_child(i) is Some {
        lemma_extend_index(a, b, input_child(i)->0);
    }
}

proof fn lemma_children_in(inputs: Seq<(String, Input)>, k: Seq<char>)
    requires
        children(inputs).contains(k),
    ensures
        exists|q: int| 0 <= q < inputs.len() && input_child(#[trigger] inputs[q].1) == Some(k),
    decreases inputs.len(),
{
    let init = inputs.subrange(0, inputs.len() - 1);
    let r = children(init);
    if r.contains(k) {
        lemma_children_in(init, k);
        let q = choose|q: int| 0 <= q < init.len() && input_child(#[trigger] init[q].1) == Some(k);
        assert(inputs[q] == init[q]);
    } else {
        let last = inputs.len() - 1;
        assert(input_child(inputs[last].1) == Some(k));
    }
}

/// Blocks whose ids none of the inputs point at are left where they were.
proof fn lemma_prefix_kept(
    old: Seq<(String, Block)>,
    new: Seq<(String, Block)>,
    inputs: Seq<(String, Input)>,
    l: int,
)
    requires
        0 <= l <= old.len(),
        old.len() <= new.len(),
        forall|j: int| 0 <= j < old.len() && !children(inputs).contains(old[j].0@) ==> #[trigger] new[j] == old[j],
        inputs_new(inputs, l, old),
    ensures
        forall|j: int| 0 <= j < l ==> #[trigger] new[j] == old[j],
{
    assert forall|j: int| 0 <= j < l implies #[trigger] new[j] == old[j] by {
        let k = old[j].0@;
        if children(inputs).contains(k) {
            lemma_children_in(inputs, k);
            let q = choose|q: int| 0 <= q < inputs.len() && input_child(#[trigger] inputs[q].1) == Some(k);
            assert(input_new(inputs[q].1, l, old));
            lemma_kv_index_at(old, j);
        }
    }
}

/// A block made from inputs that point only at blocks added since `pre`
/// leaves the blocks of `pre` as they were.
proof fn lemma_emit_extend(
    pre: Seq<(String, Block)>,
    before: Seq<(String, Block)>,
    after: Seq<(String, Block)>,
    inputs: Seq<(String, Input)>,
)
    requires
        blocks_extend(pre, before),
        inputs_new(inputs, pre.len() as int, before),
        before.len() <= after.len(),
        forall|j: int| 0 <= j < before.len() && !children(inputs).contains(before[j].0@) ==> #[trigger] after[j] == before[j],
    ensures
        blocks_extend(pre, after),
{
    lemma_prefix_kept(before, after, inputs, pre.len() as int);
    assert forall|j: int| 0 <= j < pre.len() implies #[trigger] after[j] == pre[j] by {
        assert(before[j] == pre[j]);
    }
}

/// What an earlier input points at keeps its place when blocks are added.
proof fn lemma_inputs_new_extend(inputs: Seq<(String, Input)>, l: int, a: Seq<(String, Block)>, b: Seq<(String, Block)>)
    requires
        0 <= l,
        inputs_new(inputs, l, a),
        blocks_extend(a, b),
    ensures
        inputs_new(inputs, l, b),
{
    assert forall|q: int| 0 <= q < inputs.len() implies input_new(#[trigger] inputs[q].1, l, b) by {
        assert(input_new(inputs[q].1, l, a));
        lemma_extend_input_new(inputs[q].1, l, a, b);
    }
}

/// Changing a block added after `o` keeps `o` in place.
proof fn lemma_update_extend(o: Seq<(String, Block)>, b: Seq<(String, Block)>, c: Seq<char>, f: spec_fn(NormalBlock) -> NormalBlock)
    requires
        blocks_extend(o, b),
        kv_index(b, c) >= o.len() || kv_index(b, c) < 0,
    ensures
        blocks_extend(o, block_update(b, c, f)),
{
    lemma_update_at(b, c, f);
    assert forall|j: int| 0 <= j < o.len() implies #[trigger] block_update(b, c, f)[j] == o[j] by {
        lemma_kv_index_at(b, j);
        assert(b[j] == o[j]);
    }
}

/// Adding an entry under another key leaves a missing key missing.
proof fn lemma_push_other_missing(b: Seq<(String, Block)>, e: (String, Block), k: Seq<char>)
    requires
        kv_index(b, k) < 0,
        e.0@ != k,
    ensures
        kv_index(b.push(e), k) < 0,
{
    assert(b.push(e).subrange(0, b.len() as int) =~= b);
}

proof fn lemma_update_at(blocks: Seq<(String, Block)>, c: Seq<char>, f: spec_fn(NormalBlock) -> NormalBlock)
    ensures
        block_update(blocks, c, f).len() == blocks.len(),
        forall|j: int| 0 <= j < blocks.len() ==> (#[trigger] block_update(blocks, c, f)[j]).0 == blocks[j].0,
        forall|j: int| 0 <= j < blocks.len() && blocks[j].0@ != c ==> #[trigger] block_update(blocks, c, f)[j] == blocks[j],
{
    lemma_kv_index(blocks, c);
}

proof fn lemma_reparent_others(blocks: Seq<(String, Block)>, ids: Seq<Seq<char>>, pid: Option<String>)
    ensures
        reparent(blocks, ids, pid).len() == blocks.len(),
        forall|j: int| 0 <= j < blocks.len() ==> (#[trigger] reparent(blocks, ids, pid)[j]).0 == blocks[j].0,
        forall|j: int| 0 <= j < blocks.len() && !ids.contains(blocks[j].0@) ==> #[trigger] reparent(blocks, ids, pid)[j] == blocks[j],
    decreases ids.len(),
{
    if ids.len() > 0 {
        let init = ids.subrange(0, ids.len() - 1);
        lemma_reparent_others(blocks, init, pid);
        let prev = reparent(blocks, init, pid);
        lemma_update_at(prev, ids[ids.len() - 1], |b: NormalBlock| NormalBlock { parent: pid, ..b });
        assert forall|j: int| 0 <= j < blocks.len() && !ids.contains(blocks[j].0@) implies #[trigger] reparent(blocks, ids, pid)[j] == blocks[j] by {
            assert(!init.contains(blocks[j].0@)) by {
                if init.contains(blocks[j].0@) {
                    let q = choose|q: int| 0 <= q < init.len() && init[q] == blocks[j].0@;
                    assert(ids[q] == blocks[j].0@);
                }
            }
            assert(prev[j].0 == blocks[j].0);
            assert(ids[ids.len() - 1] != blocks[j].0@);
        }
    }
}

impl CompilerContext {
    /// Sets the parent of each block among `ids` to `pid`.
    fn reparent_all(&mut self, ids: &Vec<String>, pid: &String)
        ensures
            final(self).blocks@ == reparent(old(self).blocks@, strs_view(ids@), Some(*pid)),
            final(self).comments == old(self).comments,
            final(self).broadcast_map == old(self).broadcast_map,
            data_same(*old(self), *final(self)),
    {
        let ghost iv = strs_view(ids@);
        let mut i: usize = 0;
        assert(iv.subrange(0, 0).len() == 0);
        while i < ids.len()
            invariant
                i <= ids.len(),
                iv == strs_view(ids@),
                self.blocks@ == reparent(old(self).blocks@, iv.subrange(0, i as int), Some(*pid)),
                self.comments == old(self).comments,
                self.broadcast_map == old(self).broadcast_map,
                data_same(*old(self), *self),
            decreases ids.len() - i,
        {
            assert(iv.subrange(0, i + 1).subrange(0, i as int) =~= iv.subrange(0, i as int));
            assert(iv[i as int] == ids@[i as int]@);
            self.set_parent(ids[i].as_str(), Some(pid.clone()));
            i += 1;
        }
        assert(iv.subrange(0, i as int) =~= iv);
    }
}

proof fn lemma_reparent_at(
    blocks: Seq<(String, Block)>,
    ids: Seq<Seq<char>>,
    pid: Option<String>,
    id: Seq<char>,
    b: NormalBlock,
)
    requires
        normal_at(blocks, id) == Some(b),
    ensures
        normal_at(reparent(blocks, ids, pid), id) == Some(
            if ids.contains(id) { NormalBlock { parent: pid, ..b } } else { b },
        ),
    decreases ids.len(),
{
    if ids.len() > 0 {
        let init = ids.subrange(0, ids.len() - 1);
        lemma_reparent_at(blocks, init, pid, id, b);
        let prev = reparent(blocks, init, pid);
        let c = ids[ids.len() - 1];
        lemma_block_update_other(prev, c, |x: NormalBlock| NormalBlock { parent: pid, ..x }, id);
        if init.contains(id) {
            let k = choose|k: int| 0 <= k < init.len() && init[k] == id;
            assert(ids[k] == id);
        }
        if ids.contains(id) && !init.contains(id) {
            let k = choose|k: int| 0 <= k < ids.len() && ids[k] == id;
            if k < ids.len() - 1 {
                assert(init[k] == id);
            }
        }
        if c == id {
            assert(ids[ids.len() - 1] == id);
        }
    }
}

proof fn lemma_kv_set_at<T>(s: Seq<(String, T)>, k: String, v: T)
    ensures
        kv_get(kv_set(s, k, v), k@) == Some(v),
{
    lemma_kv_index(s, k@);
    let t = kv_set(s, k, v);
    if kv_index(s, k@) >= 0 {
        assert forall|j: int| 0 <= j < t.len() implies #[trigger] t[j].0@ == s[j].0@ by {}
        lemma_kv_index_keys(t, s, k@);
    } else {
        lemma_kv_index_prefix(t, s.len() as int, k@);
    }
}

/// A fresh block with these parts: not a shadow, not the top of a script,
/// without coordinates, comment or next block.
pub open spec fn plain_block(
    opcode: String,
    parent: Option<String>,
    inputs: Vec<(String, Input)>,
    fields: Vec<(String, Field)>,
    mutation: Option<Mutation>,
) -> NormalBlock {
    NormalBlock {
        opcode,
        next: None,
        parent,
        inputs,
        fields,
        shadow: false,
        top_level: false,
        x: None,
        y: None,
        mutation,
        comment: None,
    }
}

impl CompilerContext {
    /// Adds a block with these parts under a fresh id, makes it the parent
    /// of the blocks its inputs point at, and returns its id.
    fn emit_block(
        &mut self,
        opcode: String,
        parent: Option<String>,
        inputs: Vec<(String, Input)>,
        fields: Vec<(String, Field)>,
        mutation: Option<Mutation>,
    ) -> (id: String)
        ensures
            kv_index(old(self).blocks@, id@) < 0,
            normal_at(final(self).blocks@, id@) == Some(plain_block(opcode, parent, inputs, fields, mutation)),
            final(self).blocks@.len() == old(self).blocks@.len() + 1,
            final(self).blocks@[old(self).blocks@.len() as int] == (id, Block::Normal(plain_block(opcode, parent, inputs, fields, mutation))),
            kv_index(final(self).blocks@, id@) == old(self).blocks@.len(),
            forall|j: int|
                0 <= j < old(self).blocks@.len() && !children(inputs@).contains(old(self).blocks@[j].0@) ==> #[trigger] final(self).blocks@[j]
                    == old(self).blocks@[j],
            forall|c: Seq<char>|
                children(inputs@).contains(c) && (#[trigger] normal_at(old(self).blocks@, c)) is Some ==> (normal_at(
                    final(self).blocks@,
                    c,
                ) matches Some(cb) && cb.parent == Some(id)),
            final(self).comments == old(self).comments,
            final(self).broadcast_map == old(self).broadcast_map,
            data_same(*old(self), *final(self)),
    {
        let kids = child_ids(&inputs);
        let ghost b = plain_block(opcode, parent, inputs, fields, mutation);
        let id = self.fresh_block_id();
        let ghost before = self.blocks@;
        self.reparent_all(&kids, &id);
        proof {
            lemma_reparent_kept(before, strs_view(kids@), Some(id));
            lemma_reparent_others(before, strs_view(kids@), Some(id));
            lemma_push_fresh(self.blocks@, id, b);
            lemma_kv_index(self.blocks@, id@);
            assert forall|j: int| 0 <= j < self.blocks@.len() implies #[trigger] self.blocks@.push((id, Block::Normal(b)))[j].0@ != id@ by {
                assert(self.blocks@.push((id, Block::Normal(b)))[j] == self.blocks@[j]);
            }
            lemma_kv_index_prefix(self.blocks@.push((id, Block::Normal(b))), self.blocks@.len() as int, id@);
            assert forall|c: Seq<char>|
                children(inputs@).contains(c) && (#[trigger] normal_at(before, c)) is Some implies (normal_at(
                    self.blocks@.push((id, Block::Normal(b))),
                    c,
                ) matches Some(cb) && cb.parent == Some(id)) by {
                lemma_reparent_at(before, strs_view(kids@), Some(id), c, normal_at(before, c)->0);
                assert(kv_index(self.blocks@, c) >= 0);
            }
        }
        self.blocks.push((id.clone(), Block::Normal(NormalBlock {
            opcode,
            next: None,
            parent,
            inputs,
            fields,
            shadow: false,
            top_level: false,
            x: None,
            y: None,
            mutation,
            comment: None,
        })));
        id
    }

    /// Adds a shadow menu block whose field `field_name` holds `value`, and
    /// returns its id.
    pub fn add_menu_block(&mut self, opcode: &str, field_name: &str, value: String) -> (id: String)
        ensures
            opcode_at(final(self).blocks@, id@) == Some(opcode@),
            normal_at(final(self).blocks@, id@)->0.shadow,
            ({
                let b = normal_at(final(self).blocks@, id@)->0;
                &&& b.next is None && b.parent is None && !b.top_level
                &&& b.inputs@.len() == 0
                &&& b.fields@.len() == 1
                &&& b.fields@[0].0@ == field_name@
                &&& field_view(b.fields@[0].1) == plain_field(value@)
            }),
            blocks_extend(old(self).blocks@, final(self).blocks@),
            kv_index(final(self).blocks@, id@) == old(self).blocks@.len(),
            final(self).comments == old(self).comments,
            final(self).broadcast_map == old(self).broadcast_map,
            data_same(*old(self), *final(self)),
    {
        let mut fields: Vec<(String, Field)> = Vec::new();
        fields.push((lit(field_name), field2(JsonValue::Str(value), JsonValue::Null)));
        let block = NormalBlock {
            opcode: lit(opcode),
            next: None,
            parent: None,
            inputs: Vec::new(),
            fields,
            shadow: true,
            top_level: false,
            x: None,
            y: None,
            mutation: None,
            comment: None,
        };
        let ghost bb = block;
        let id = self.add_block(block);
        proof {
            lemma_kv_set_at(old(self).blocks@, id, Block::Normal(bb));
        }
        id
    }
}

// ---------------------------------------------------------------------------
// Known blocks
// ---------------------------------------------------------------------------

/// Which of a block's data a call names in its first argument.
#[derive(Debug, Clone, Copy, PartialEq, Eq, Structural)]
pub enum TargetArg {
    NoTarget,
    List,
    Variable,
}

/// How a menu input translates the text it is given.
#[derive(Debug, Clone, Copy, PartialEq, Eq, Structural)]
pub enum MenuMap {
    /// Kept as written.
    Plain,
    /// `mouse-pointer` and `random-position` become `_mouse_` and `_random_`.
    GoTarget,
    /// `mouse-pointer` becomes `_mouse_`.
    Pointer,
    /// `myself` becomes `_myself_`.
    Clone,
    /// `mouse-pointer` and `edge` become `_mouse_` and `_edge_`.
    Touch,
    /// `Stage` becomes `_stage_`.
    StageObj,
}

/// An input of a known block: its key, the argument it is compiled from,
/// and, for a menu input, the menu's opcode and how a text argument is
/// translated.
#[derive(Debug)]
pub struct Slot {
    pub key: String,
    pub arg: u8,
    pub menu: Option<(String, MenuMap)>,
}

/// A known block: its opcode, the list or variable its first argument names,
/// a field taken from a text argument, a constant field, and its inputs.
#[derive(Debug)]
pub struct Builtin {
    pub opcode: String,
    pub target: TargetArg,
    pub text_field: Option<(String, u8)>,
    pub const_field: Option<(String, String)>,
    pub slots: Vec<Slot>,
}

pub ghost struct SlotV {
    pub key: Seq<char>,
    pub arg: nat,
    pub menu: Option<(Seq<char>, MenuMap)>,
}

pub ghost struct BuiltinV {
    pub opcode: Seq<char>,
    pub target: TargetArg,
    pub text_field: Option<(Seq<char>, nat)>,
    pub const_field: Option<(Seq<char>, Seq<char>)>,
    pub slots: Seq<SlotV>,
}

pub open spec fn slot_view(s: Slot) -> SlotV {
    SlotV {
        key: s.key@,
        arg: s.arg as nat,
        menu: match s.menu {
            Some((m, t)) => Some((m@, t)),
            None => None,
        },
    }
}

pub open spec fn slots_view(s: Seq<Slot>) -> Seq<SlotV> {
    s.map_values(|x: Slot| slot_view(x))
}

pub open spec fn builtin_view(b: Builtin) -> BuiltinV {
    BuiltinV {
        opcode: b.opcode@,
        target: b.target,
        text_field: match b.text_field {
            Some((k, a)) => Some((k@, a as nat)),
            None => None,
        },
        const_field: match b.const_field {
            Some((k, v)) => Some((k@, v@)),
            None => None,
        },
        slots: slots_view(b.slots@),
    }
}

pub open spec fn builtin_opt_view(b: Option<Builtin>) -> Option<BuiltinV> {
    match b {
        Some(x) => Some(builtin_view(x)),
        None => None,
    }
}

pub open spec fn sl(k: Seq<char>, a: nat) -> SlotV {
    SlotV { key: k, arg: a, menu: None }
}

pub open spec fn sm(k: Seq<char>, a: nat, m: Seq<char>, t: MenuMap) -> SlotV {
    SlotV { key: k, arg: a, menu: Some((m, t)) }
}

pub open spec fn bspec(
    op: Seq<char>,
    target: TargetArg,
    text_field: Option<(Seq<char>, nat)>,
    const_field: Option<(Seq<char>, Seq<char>)>,
    slots: Seq<SlotV>,
) -> BuiltinV {
    BuiltinV { opcode: op, target, text_field, const_field, slots }
}

fn x_sl(k: &str, a: u8) -> (r: Slot)
    ensures
        slot_view(r) == sl(k@, a as nat),
{
    Slot { key: lit(k), arg: a, menu: None }
}

fn x_sm(k: &str, a: u8, m: &str, t: MenuMap) -> (r: Slot)
    ensures
        slot_view(r) == sm(k@, a as nat, m@, t),
{
    Slot { key: lit(k), arg: a, menu: Some((lit(m), t)) }
}

fn slots0() -> (r: Vec<Slot>)
    ensures
        slots_view(r@) == Seq::<SlotV>::empty(),
{
    let v: Vec<Slot> = Vec::new();
    assert(slots_view(v@) =~= Seq::<SlotV>::empty());
    v
}

fn slots1(a: Slot) -> (r: Vec<Slot>)
    ensures
        slots_view(r@) == seq![slot_view(a)],
{
    let ghost av = slot_view(a);
    let mut v: Vec<Slot> = Vec::new();
    v.push(a);
    assert(slots_view(v@) =~= seq![av]);
    v
}

fn slots2(a: Slot, b: Slot) -> (r: Vec<Slot>)
    ensures
        slots_view(r@) == seq![slot_view(a), slot_view(b)],
{
    let ghost (av, bv) = (slot_view(a), slot_view(b));
    let mut v: Vec<Slot> = Vec::new();
    v.push(a);
    v.push(b);
    assert(slots_view(v@) =~= seq![av, bv]);
    v
}

fn slots3(a: Slot, b: Slot, c: Slot) -> (r: Vec<Slot>)
    ensures
        slots_view(r@) == seq![slot_view(a), slot_view(b), slot_view(c)],
{
    let ghost (av, bv, cv) = (slot_view(a), slot_view(b), slot_view(c));
    let mut v: Vec<Slot> = Vec::new();
    v.push(a);
    v.push(b);
    v.push(c);
    assert(slots_view(v@) =~= seq![av, bv, cv]);
    v
}

fn x_b(
    op: &str,
    target: TargetArg,
    text_field: Option<(String, u8)>,
    const_field: Option<(String, String)>,
    slots: Vec<Slot>,
) -> (r: Builtin)
    ensures
        builtin_view(r) == bspec(
            op@,
            target,
            match text_field {
                Some((k, a)) => Some((k@, a as nat)),
                None => None,
            },
            match const_field {
                Some((k, v)) => Some((k@, v@)),
                None => None,
            },
            slots_view(slots@),
        ),
{
    Builtin { opcode: lit(op), target, text_field, const_field, slots }
}

/// Known blocks, part 1.
pub open spec fn table0(name: Seq<char>) -> Option<BuiltinV> {
    if name == "add_to_list"@ {
        Some(bspec("data_addtolist"@, TargetArg::List, None, None, seq![sl("ITEM"@, 1)]))
    } else if name == "delete_of_list"@ {
        Some(bspec("data_deleteoflist"@, TargetArg::List, None, None, seq![sl("INDEX"@, 1)]))
    } else if name == "delete_all_of_list"@ {
        Some(bspec("data_deletealloflist"@, TargetArg::List, None, None, Seq::empty()))
    } else if name == "insert_at_list"@ {
        Some(bspec("data_insertatlist"@, TargetArg::List, None, None, seq![sl("INDEX"@, 1), sl("ITEM"@, 2)]))
    } else if name == "replace_item_of_list"@ || name == "replace_item_list"@ {
        Some(bspec("data_replaceitemoflist"@, TargetArg::List, None, None, seq![sl("INDEX"@, 1), sl("ITEM"@, 2)]))
    } else if name == "item_of_list"@ {
        Some(bspec("data_itemoflist"@, TargetArg::List, None, None, seq![sl("INDEX"@, 1)]))
    } else if name == "length_of_list"@ {
        Some(bspec("data_lengthoflist"@, TargetArg::List, None, None, Seq::empty()))
    } else if name == "list_contains"@ {
        Some(bspec("data_listcontainsitem"@, TargetArg::List, None, None, seq![sl("ITEM"@, 1)]))
    } else if name == "move_steps"@ {
        Some(bspec("motion_movesteps"@, TargetArg::NoTarget, None, None, seq![sl("STEPS"@, 0)]))
    } else if name == "pen_clear"@ {
        Some(bspec("pen_clear"@, TargetArg::NoTarget, None, None, Seq::empty()))
    } else if name == "pen_stamp"@ {
        Some(bspec("pen_stamp"@, TargetArg::NoTarget, None, None, Seq::empty()))
    } else if name == "pen_down"@ {
        Some(bspec("pen_penDown"@, TargetArg::NoTarget, None, None, Seq::empty()))
    } else if name == "pen_up"@ {
        Some(bspec("pen_penUp"@, TargetArg::NoTarget, None, None, Seq::empty()))
    } else if name == "set_pen_color"@ {
        Some(bspec("pen_setPenColorToColor"@, TargetArg::NoTarget, None, None, seq![sl("COLOR"@, 0)]))
    } else if name == "change_pen_hue_by"@ {
        Some(bspec("pen_changePenHueBy"@, TargetArg::NoTarget, None, None, seq![sl("HUE"@, 0)]))
    } else if name == "set_pen_hue_to"@ {
        Some(bspec("pen_setPenHueToNumber"@, TargetArg::NoTarget, None, None, seq![sl("HUE"@, 0)]))
    } else {
        table1(name)
    }
}

/// Known blocks, part 2.
pub open spec fn table1(name: Seq<char>) -> Option<BuiltinV> {
    if name == "change_pen_shade_by"@ {
        Some(bspec("pen_changePenShadeBy"@, TargetArg::NoTarget, None, None, seq![sl("SHADE"@, 0)]))
    } else if name == "set_pen_shade_to"@ {
        Some(bspec("pen_setPenShadeToNumber"@, TargetArg::NoTarget, None, None, seq![sl("SHADE"@, 0)]))
    } else if name == "change_pen_size_by"@ {
        Some(bspec("pen_changePenSizeBy"@, TargetArg::NoTarget, None, None, seq![sl("SIZE"@, 0)]))
    } else if name == "set_pen_size_to"@ {
        Some(bspec("pen_setPenSizeTo"@, TargetArg::NoTarget, None, None, seq![sl("SIZE"@, 0)]))
    } else if name == "play_drum"@ {
        Some(bspec("music_playDrumForBeats"@, TargetArg::NoTarget, None, None, seq![sl("DRUM"@, 0), sl("BEATS"@, 1)]))
    } else if name == "rest_for"@ {
        Some(bspec("music_restForBeats"@, TargetArg::NoTarget, None, None, seq![sl("BEATS"@, 0)]))
    } else if name == "play_note"@ {
        Some(bspec("music_playNoteForBeats"@, TargetArg::NoTarget, None, None, seq![sl("NOTE"@, 0), sl("BEATS"@, 1)]))
    } else if name == "set_instrument"@ {
        Some(bspec("music_setInstrument"@, TargetArg::NoTarget, None, None, seq![sl("INSTRUMENT"@, 0)]))
    } else if name == "change_tempo_by"@ {
        Some(bspec("music_changeTempo"@, TargetArg::NoTarget, None, None, seq![sl("TEMPO"@, 0)]))
    } else if name == "set_tempo_to"@ {
        Some(bspec("music_setTempo"@, TargetArg::NoTarget, None, None, seq![sl("TEMPO"@, 0)]))
    } else if name == "get_tempo"@ {
        Some(bspec("music_getTempo"@, TargetArg::NoTarget, None, None, Seq::empty()))
    } else if name == "turn_right"@ {
        Some(bspec("motion_turnright"@, TargetArg::NoTarget, None, None, seq![sl("DEGREES"@, 0)]))
    } else if name == "turn_left"@ {
        Some(bspec("motion_turnleft"@, TargetArg::NoTarget, None, None, seq![sl("DEGREES"@, 0)]))
    } else if name == "glide"@ {
        Some(bspec("motion_glidesecstoxy"@, TargetArg::NoTarget, None, None, seq![sl("SECS"@, 0), sl("X"@, 1), sl("Y"@, 2)]))
    } else if name == "glide_to"@ {
        Some(bspec("motion_glideto"@, TargetArg::NoTarget, None, None, seq![sl("SECS"@, 0), sm("TO"@, 1, "motion_glideto_menu"@, MenuMap::GoTarget)]))
    } else if name == "point_in_direction"@ {
        Some(bspec("motion_pointindirection"@, TargetArg::NoTarget, None, None, seq![sl("DIRECTION"@, 0)]))
    } else {
        table2(name)
    }
}

/// Known blocks, part 3.
pub open spec fn table2(name: Seq<char>) -> Option<BuiltinV> {
    if name == "point_towards"@ {
        Some(bspec("motion_pointtowards"@, TargetArg::NoTarget, None, None, seq![sm("TOWARDS"@, 0, "motion_pointtowards_menu"@, MenuMap::Pointer)]))
    } else if name == "change_x_by"@ {
        Some(bspec("motion_changexby"@, TargetArg::NoTarget, None, None, seq![sl("DX"@, 0)]))
    } else if name == "set_x_to"@ {
        Some(bspec("motion_setx"@, TargetArg::NoTarget, None, None, seq![sl("X"@, 0)]))
    } else if name == "change_y_by"@ {
        Some(bspec("motion_changeyby"@, TargetArg::NoTarget, None, None, seq![sl("DY"@, 0)]))
    } else if name == "set_y_to"@ {
        Some(bspec("motion_sety"@, TargetArg::NoTarget, None, None, seq![sl("Y"@, 0)]))
    } else if name == "if_on_edge_bounce"@ {
        Some(bspec("motion_ifonedgebounce"@, TargetArg::NoTarget, None, None, Seq::empty()))
    } else if name == "set_rotation_style"@ {
        Some(bspec("motion_setrotationstyle"@, TargetArg::NoTarget, Some(("STYLE"@, 0nat)), None, Seq::empty()))
    } else if name == "say"@ {
        Some(bspec("looks_say"@, TargetArg::NoTarget, None, None, seq![sl("MESSAGE"@, 0)]))
    } else if name == "say_for"@ {
        Some(bspec("looks_sayforsecs"@, TargetArg::NoTarget, None, None, seq![sl("MESSAGE"@, 0), sl("SECS"@, 1)]))
    } else if name == "think"@ {
        Some(bspec("looks_think"@, TargetArg::NoTarget, None, None, seq![sl("MESSAGE"@, 0)]))
    } else if name == "think_for"@ {
        Some(bspec("looks_thinkforsecs"@, TargetArg::NoTarget, None, None, seq![sl("MESSAGE"@, 0), sl("SECS"@, 1)]))
    } else if name == "switch_costume_to"@ {
        Some(bspec("looks_switchcostumeto"@, TargetArg::NoTarget, None, None, seq![sm("COSTUME"@, 0, "looks_costume"@, MenuMap::Plain)]))
    } else if name == "next_costume"@ {
        Some(bspec("looks_nextcostume"@, TargetArg::NoTarget, None, None, Seq::empty()))
    } else if name == "switch_backdrop_to"@ {
        Some(bspec("looks_switchbackdropto"@, TargetArg::NoTarget, None, None, seq![sm("BACKDROP"@, 0, "looks_backdrops"@, MenuMap::Plain)]))
    } else if name == "next_backdrop"@ {
        Some(bspec("looks_nextbackdrop"@, TargetArg::NoTarget, None, None, Seq::empty()))
    } else if name == "change_size_by"@ {
        Some(bspec("looks_changesizeby"@, TargetArg::NoTarget, None, None, seq![sl("CHANGE"@, 0)]))
    } else {
        table3(name)
    }
}

/// Known blocks, part 4.
pub open spec fn table3(name: Seq<char>) -> Option<BuiltinV> {
    if name == "set_size_to"@ {
        Some(bspec("looks_setsizeto"@, TargetArg::NoTarget, None, None, seq![sl("SIZE"@, 0)]))
    } else if name == "change_effect_by"@ {
        Some(bspec("looks_changeeffectby"@, TargetArg::NoTarget, Some(("EFFECT"@, 0nat)), None, seq![sl("CHANGE"@, 1)]))
    } else if name == "set_effect_to"@ {
        Some(bspec("looks_seteffectto"@, TargetArg::NoTarget, Some(("EFFECT"@, 0nat)), None, seq![sl("VALUE"@, 1)]))
    } else if name == "clear_graphic_effects"@ {
        Some(bspec("looks_cleargraphiceffects"@, TargetArg::NoTarget, None, None, Seq::empty()))
    } else if name == "show"@ {
        Some(bspec("looks_show"@, TargetArg::NoTarget, None, None, Seq::empty()))
    } else if name == "hide"@ {
        Some(bspec("looks_hide"@, TargetArg::NoTarget, None, None, Seq::empty()))
    } else if name == "go_to_front_layer"@ {
        Some(bspec("looks_gotofrontback"@, TargetArg::NoTarget, None, Some(("FRONT_BACK"@, "front"@)), Seq::empty()))
    } else if name == "go_back_layer"@ {
        Some(bspec("looks_gotofrontback"@, TargetArg::NoTarget, None, Some(("FRONT_BACK"@, "back"@)), Seq::empty()))
    } else if name == "go_forward_layers"@ {
        Some(bspec("looks_goforwardbackwardlayers"@, TargetArg::NoTarget, None, Some(("FORWARD_BACKWARD"@, "forward"@)), seq![sl("NUM"@, 0)]))
    } else if name == "go_backward_layers"@ {
        Some(bspec("looks_goforwardbackwardlayers"@, TargetArg::NoTarget, None, Some(("FORWARD_BACKWARD"@, "backward"@)), seq![sl("NUM"@, 0)]))
    } else if name == "size"@ {
        Some(bspec("looks_size"@, TargetArg::NoTarget, None, None, Seq::empty()))
    } else if name == "costume_number"@ {
        Some(bspec("looks_costumenumbername"@, TargetArg::NoTarget, None, Some(("NUMBER_NAME"@, "number"@)), Seq::empty()))
    } else if name == "costume_name"@ {
        Some(bspec("looks_costumenumbername"@, TargetArg::NoTarget, None, Some(("NUMBER_NAME"@, "name"@)), Seq::empty()))
    } else if name == "backdrop_number"@ {
        Some(bspec("looks_backdropnumbername"@, TargetArg::NoTarget, None, Some(("NUMBER_NAME"@, "number"@)), Seq::empty()))
    } else if name == "backdrop_name"@ {
        Some(bspec("looks_backdropnumbername"@, TargetArg::NoTarget, None, Some(("NUMBER_NAME"@, "name"@)), Seq::empty()))
    } else if name == "start_sound"@ {
        Some(bspec("sound_play"@, TargetArg::NoTarget, None, None, seq![sl("SOUND_MENU"@, 0)]))
    } else {
        table4(name)
    }
}

/// Known blocks, part 5.
pub open spec fn table4(name: Seq<char>) -> Option<BuiltinV> {
    if name == "play_sound_until_done"@ {
        Some(bspec("sound_playuntildone"@, TargetArg::NoTarget, None, None, seq![sl("SOUND_MENU"@, 0)]))
    } else if name == "stop_all_sounds"@ {
        Some(bspec("sound_stopallsounds"@, TargetArg::NoTarget, None, None, Seq::empty()))
    } else if name == "change_volume_by"@ {
        Some(bspec("sound_changevolumeby"@, TargetArg::NoTarget, None, None, seq![sl("VOLUME"@, 0)]))
    } else if name == "set_volume_to"@ {
        Some(bspec("sound_setvolumeto"@, TargetArg::NoTarget, None, None, seq![sl("VOLUME"@, 0)]))
    } else if name == "volume"@ {
        Some(bspec("sound_volume"@, TargetArg::NoTarget, None, None, Seq::empty()))
    } else if name == "broadcast"@ {
        Some(bspec("event_broadcast"@, TargetArg::NoTarget, None, None, seq![sl("BROADCAST_INPUT"@, 0)]))
    } else if name == "broadcast_and_wait"@ {
        Some(bspec("event_broadcastandwait"@, TargetArg::NoTarget, None, None, seq![sl("BROADCAST_INPUT"@, 0)]))
    } else if name == "create_clone_of"@ {
        Some(bspec("control_create_clone_of"@, TargetArg::NoTarget, None, None, seq![sm("CLONE_OPTION"@, 0, "control_create_clone_of_menu"@, MenuMap::Clone)]))
    } else if name == "delete_this_clone"@ {
        Some(bspec("control_delete_this_clone"@, TargetArg::NoTarget, None, None, Seq::empty()))
    } else if name == "wait"@ {
        Some(bspec("control_wait"@, TargetArg::NoTarget, None, None, seq![sl("DURATION"@, 0)]))
    } else if name == "wait_until"@ {
        Some(bspec("control_wait_until"@, TargetArg::NoTarget, None, None, seq![sl("CONDITION"@, 0)]))
    } else if name == "stop"@ {
        Some(bspec("control_stop"@, TargetArg::NoTarget, Some(("STOP_OPTION"@, 0nat)), None, Seq::empty()))
    } else if name == "touching"@ {
        Some(bspec("sensing_touchingobject"@, TargetArg::NoTarget, None, None, seq![sm("TOUCHINGOBJECTMENU"@, 0, "sensing_touchingobjectmenu"@, MenuMap::Touch)]))
    } else if name == "touching_color"@ {
        Some(bspec("sensing_touchingcolor"@, TargetArg::NoTarget, None, None, seq![sl("COLOR"@, 0)]))
    } else if name == "color_touching_color"@ {
        Some(bspec("sensing_coloristouchingcolor"@, TargetArg::NoTarget, None, None, seq![sl("COLOR"@, 0), sl("COLOR2"@, 1)]))
    } else if name == "distance_to"@ {
        Some(bspec("sensing_distanceto"@, TargetArg::NoTarget, None, None, seq![sm("DISTANCETOMENU"@, 0, "sensing_distancetomenu"@, MenuMap::Pointer)]))
    } else {
        table5(name)
    }
}

/// Known blocks, part 6.
pub open spec fn table5(name: Seq<char>) -> Option<BuiltinV> {
    if name == "ask_and_wait"@ {
        Some(bspec("sensing_askandwait"@, TargetArg::NoTarget, None, None, seq![sl("QUESTION"@, 0)]))
    } else if name == "answer"@ {
        Some(bspec("sensing_answer"@, TargetArg::NoTarget, None, None, Seq::empty()))
    } else if name == "key_pressed"@ {
        Some(bspec("sensing_keypressed"@, TargetArg::NoTarget, None, None, seq![sm("KEY_OPTION"@, 0, "sensing_keyoptions"@, MenuMap::Plain)]))
    } else if name == "mouse_down"@ {
        Some(bspec("sensing_mousedown"@, TargetArg::NoTarget, None, None, Seq::empty()))
    } else if name == "mouse_x"@ {
        Some(bspec("sensing_mousex"@, TargetArg::NoTarget, None, None, Seq::empty()))
    } else if name == "mouse_y"@ {
        Some(bspec("sensing_mousey"@, TargetArg::NoTarget, None, None, Seq::empty()))
    } else if name == "set_drag_mode"@ {
        Some(bspec("sensing_setdragmode"@, TargetArg::NoTarget, Some(("DRAG_MODE"@, 0nat)), None, Seq::empty()))
    } else if name == "loudness"@ {
        Some(bspec("sensing_loudness"@, TargetArg::NoTarget, None, None, Seq::empty()))
    } else if name == "timer"@ {
        Some(bspec("sensing_timer"@, TargetArg::NoTarget, None, None, Seq::empty()))
    } else if name == "reset_timer"@ {
        Some(bspec("sensing_resettimer"@, TargetArg::NoTarget, None, None, Seq::empty()))
    } else if name == "of"@ {
        Some(bspec("sensing_of"@, TargetArg::NoTarget, Some(("PROPERTY"@, 0nat)), None, seq![sm("OBJECT"@, 1, "sensing_of_object_menu"@, MenuMap::StageObj)]))
    } else if name == "current_year"@ {
        Some(bspec("sensing_current"@, TargetArg::NoTarget, None, Some(("CURRENTMENU"@, "YEAR"@)), Seq::empty()))
    } else if name == "current_month"@ {
        Some(bspec("sensing_current"@, TargetArg::NoTarget, None, Some(("CURRENTMENU"@, "MONTH"@)), Seq::empty()))
    } else if name == "current_date"@ {
        Some(bspec("sensing_current"@, TargetArg::NoTarget, None, Some(("CURRENTMENU"@, "DATE"@)), Seq::empty()))
    } else if name == "current_day_of_week"@ {
        Some(bspec("sensing_current"@, TargetArg::NoTarget, None, Some(("CURRENTMENU"@, "DAYOFWEEK"@)), Seq::empty()))
    } else if name == "current_hour"@ {
        Some(bspec("sensing_current"@, TargetArg::NoTarget, None, Some(("CURRENTMENU"@, "HOUR"@)), Seq::empty()))
    } else {
        table6(name)
    }
}

/// Known blocks, part 7.
pub open spec fn table6(name: Seq<char>) -> Option<BuiltinV> {
    if name == "current_minute"@ {
        Some(bspec("sensing_current"@, TargetArg::NoTarget, None, Some(("CURRENTMENU"@, "MINUTE"@)), Seq::empty()))
    } else if name == "current_second"@ {
        Some(bspec("sensing_current"@, TargetArg::NoTarget, None, Some(("CURRENTMENU"@, "SECOND"@)), Seq::empty()))
    } else if name == "days_since_2000"@ {
        Some(bspec("sensing_dayssince2000"@, TargetArg::NoTarget, None, None, Seq::empty()))
    } else if name == "username"@ {
        Some(bspec("sensing_username"@, TargetArg::NoTarget, None, None, Seq::empty()))
    } else if name == "random"@ {
        Some(bspec("operator_random"@, TargetArg::NoTarget, None, None, seq![sl("FROM"@, 0), sl("TO"@, 1)]))
    } else if name == "letter_of"@ {
        Some(bspec("operator_letter_of"@, TargetArg::NoTarget, None, None, seq![sl("STRING"@, 0), sl("LETTER"@, 1)]))
    } else if name == "length_of"@ {
        Some(bspec("operator_length"@, TargetArg::NoTarget, None, None, seq![sl("STRING"@, 0)]))
    } else if name == "contains"@ {
        Some(bspec("operator_contains"@, TargetArg::NoTarget, None, None, seq![sl("STRING1"@, 0), sl("STRING2"@, 1)]))
    } else if name == "mod"@ {
        Some(bspec("operator_mod"@, TargetArg::NoTarget, None, None, seq![sl("NUM1"@, 0), sl("NUM2"@, 1)]))
    } else if name == "round"@ {
        Some(bspec("operator_round"@, TargetArg::NoTarget, None, None, seq![sl("NUM"@, 0)]))
    } else if name == "abs"@ {
        Some(bspec("operator_mathop"@, TargetArg::NoTarget, None, Some(("OPERATOR"@, "abs"@)), seq![sl("NUM"@, 0)]))
    } else if name == "floor"@ {
        Some(bspec("operator_mathop"@, TargetArg::NoTarget, None, Some(("OPERATOR"@, "floor"@)), seq![sl("NUM"@, 0)]))
    } else if name == "sqrt"@ {
        Some(bspec("operator_mathop"@, TargetArg::NoTarget, None, Some(("OPERATOR"@, "sqrt"@)), seq![sl("NUM"@, 0)]))
    } else if name == "sin"@ {
        Some(bspec("operator_mathop"@, TargetArg::NoTarget, None, Some(("OPERATOR"@, "sin"@)), seq![sl("NUM"@, 0)]))
    } else if name == "cos"@ {
        Some(bspec("operator_mathop"@, TargetArg::NoTarget, None, Some(("OPERATOR"@, "cos"@)), seq![sl("NUM"@, 0)]))
    } else if name == "tan"@ {
        Some(bspec("operator_mathop"@, TargetArg::NoTarget, None, Some(("OPERATOR"@, "tan"@)), seq![sl("NUM"@, 0)]))
    } else {
        table7(name)
    }
}

/// Known blocks, part 8.
pub open spec fn table7(name: Seq<char>) -> Option<BuiltinV> {
    if name == "asin"@ {
        Some(bspec("operator_mathop"@, TargetArg::NoTarget, None, Some(("OPERATOR"@, "asin"@)), seq![sl("NUM"@, 0)]))
    } else if name == "acos"@ {
        Some(bspec("operator_mathop"@, TargetArg::NoTarget, None, Some(("OPERATOR"@, "acos"@)), seq![sl("NUM"@, 0)]))
    } else if name == "atan"@ {
        Some(bspec("operator_mathop"@, TargetArg::NoTarget, None, Some(("OPERATOR"@, "atan"@)), seq![sl("NUM"@, 0)]))
    } else if name == "ln"@ {
        Some(bspec("operator_mathop"@, TargetArg::NoTarget, None, Some(("OPERATOR"@, "ln"@)), seq![sl("NUM"@, 0)]))
    } else if name == "log"@ {
        Some(bspec("operator_mathop"@, TargetArg::NoTarget, None, Some(("OPERATOR"@, "log"@)), seq![sl("NUM"@, 0)]))
    } else if name == "e^"@ {
        Some(bspec("operator_mathop"@, TargetArg::NoTarget, None, Some(("OPERATOR"@, "e^"@)), seq![sl("NUM"@, 0)]))
    } else if name == "10^"@ {
        Some(bspec("operator_mathop"@, TargetArg::NoTarget, None, Some(("OPERATOR"@, "10^"@)), seq![sl("NUM"@, 0)]))
    } else if name == "ceil"@ {
        Some(bspec("operator_mathop"@, TargetArg::NoTarget, None, Some(("OPERATOR"@, "ceiling"@)), seq![sl("NUM"@, 0)]))
    } else if name == "x_position"@ {
        Some(bspec("motion_xposition"@, TargetArg::NoTarget, None, None, Seq::empty()))
    } else if name == "y_position"@ {
        Some(bspec("motion_yposition"@, TargetArg::NoTarget, None, None, Seq::empty()))
    } else if name == "direction"@ {
        Some(bspec("motion_direction"@, TargetArg::NoTarget, None, None, Seq::empty()))
    } else if name == "change_sound_effect_by"@ {
        Some(bspec("sound_changeeffectby"@, TargetArg::NoTarget, Some(("EFFECT"@, 0nat)), None, seq![sl("VALUE"@, 1)]))
    } else if name == "set_sound_effect_to"@ {
        Some(bspec("sound_seteffectto"@, TargetArg::NoTarget, Some(("EFFECT"@, 0nat)), None, seq![sl("VALUE"@, 1)]))
    } else if name == "clear_sound_effects"@ {
        Some(bspec("sound_cleareffects"@, TargetArg::NoTarget, None, None, Seq::empty()))
    } else if name == "set_variable"@ {
        Some(bspec("data_setvariableto"@, TargetArg::Variable, None, None, seq![sl("VALUE"@, 1)]))
    } else if name == "change_variable_by"@ {
        Some(bspec("data_changevariableby"@, TargetArg::Variable, None, None, seq![sl("VALUE"@, 1)]))
    } else {
        table8(name)
    }
}

/// Known blocks, part 9.
pub open spec fn table8(name: Seq<char>) -> Option<BuiltinV> {
    if name == "show_variable"@ {
        Some(bspec("data_showvariable"@, TargetArg::Variable, None, None, Seq::empty()))
    } else if name == "hide_variable"@ {
        Some(bspec("data_hidevariable"@, TargetArg::Variable, None, None, Seq::empty()))
    } else if name == "show_list"@ {
        Some(bspec("data_showlist"@, TargetArg::List, None, None, Seq::empty()))
    } else if name == "hide_list"@ {
        Some(bspec("data_hidelist"@, TargetArg::List, None, None, Seq::empty()))
    } else if name == "item_num_of_list"@ {
        Some(bspec("data_itemnumoflist"@, TargetArg::List, None, None, seq![sl("ITEM"@, 1)]))
    } else {
        None
    }
}

/// The known block a call of `name` with `nargs` arguments compiles to;
/// `go_to` with one argument goes to a menu target, with more to a point.
pub open spec fn builtin_spec(name: Seq<char>, nargs: nat) -> Option<BuiltinV> {
    if name == "go_to"@ {
        if nargs == 1 {
            Some(bspec("motion_goto"@, TargetArg::NoTarget, None, None, seq![sm("TO"@, 0, "motion_goto_menu"@, MenuMap::GoTarget)]))
        } else {
            Some(bspec("motion_gotoxy"@, TargetArg::NoTarget, None, None, seq![sl("X"@, 0), sl("Y"@, 1)]))
        }
    } else {
        table0(name)
    }
}

#[verifier::rlimit(100)]
#[verifier::spinoff_prover]
fn x_table0(name: &str) -> (r: Option<Builtin>)
    ensures
        builtin_opt_view(r) == table0(name@),
{
    if str_eq(name, "add_to_list") {
        return Some(x_b("data_addtolist", TargetArg::List, None, None, slots1(x_sl("ITEM", 1))));
    }
    if str_eq(name, "delete_of_list") {
        return Some(x_b("data_deleteoflist", TargetArg::List, None, None, slots1(x_sl("INDEX", 1))));
    }
    if str_eq(name, "delete_all_of_list") {
        return Some(x_b("data_deletealloflist", TargetArg::List, None, None, slots0()));
    }
    if str_eq(name, "insert_at_list") {
        return Some(x_b("data_insertatlist", TargetArg::List, None, None, slots2(x_sl("INDEX", 1), x_sl("ITEM", 2))));
    }
    if str_eq(name, "replace_item_of_list") || str_eq(name, "replace_item_list") {
        return Some(x_b("data_replaceitemoflist", TargetArg::List, None, None, slots2(x_sl("INDEX", 1), x_sl("ITEM", 2))));
    }
    if str_eq(name, "item_of_list") {
        return Some(x_b("data_itemoflist", TargetArg::List, None, None, slots1(x_sl("INDEX", 1))));
    }
    if str_eq(name, "length_of_list") {
        return Some(x_b("data_lengthoflist", TargetArg::List, None, None, slots0()));
    }
    if str_eq(name, "list_contains") {
        return Some(x_b("data_listcontainsitem", TargetArg::List, None, None, slots1(x_sl("ITEM", 1))));
    }
    if str_eq(name, "move_steps") {
        return Some(x_b("motion_movesteps", TargetArg::NoTarget, None, None, slots1(x_sl("STEPS", 0))));
    }
    if str_eq(name, "pen_clear") {
        return Some(x_b("pen_clear", TargetArg::NoTarget, None, None, slots0()));
    }
    if str_eq(name, "pen_stamp") {
        return Some(x_b("pen_stamp", TargetArg::NoTarget, None, None, slots0()));
    }
    if str_eq(name, "pen_down") {
        return Some(x_b("pen_penDown", TargetArg::NoTarget, None, None, slots0()));
    }
    if str_eq(name, "pen_up") {
        return Some(x_b("pen_penUp", TargetArg::NoTarget, None, None, slots0()));
    }
    if str_eq(name, "set_pen_color") {
        return Some(x_b("pen_setPenColorToColor", TargetArg::NoTarget, None, None, slots1(x_sl("COLOR", 0))));
    }
    if str_eq(name, "change_pen_hue_by") {
        return Some(x_b("pen_changePenHueBy", TargetArg::NoTarget, None, None, slots1(x_sl("HUE", 0))));
    }
    if str_eq(name, "set_pen_hue_to") {
        return Some(x_b("pen_setPenHueToNumber", TargetArg::NoTarget, None, None, slots1(x_sl("HUE", 0))));
    }
    x_table1(name)
}

#[verifier::rlimit(100)]
#[verifier::spinoff_prover]
fn x_table1(name: &str) -> (r: Option<Builtin>)
    ensures
        builtin_opt_view(r) == table1(name@),
{
    if str_eq(name, "change_pen_shade_by") {
        return Some(x_b("pen_changePenShadeBy", TargetArg::NoTarget, None, None, slots1(x_sl("SHADE", 0))));
    }
    if str_eq(name, "set_pen_shade_to") {
        return Some(x_b("pen_setPenShadeToNumber", TargetArg::NoTarget, None, None, slots1(x_sl("SHADE", 0))));
    }
    if str_eq(name, "change_pen_size_by") {
        return Some(x_b("pen_changePenSizeBy", TargetArg::NoTarget, None, None, slots1(x_sl("SIZE", 0))));
    }
    if str_eq(name, "set_pen_size_to") {
        return Some(x_b("pen_setPenSizeTo", TargetArg::NoTarget, None, None, slots1(x_sl("SIZE", 0))));
    }
    if str_eq(name, "play_drum") {
        return Some(x_b("music_playDrumForBeats", TargetArg::NoTarget, None, None, slots2(x_sl("DRUM", 0), x_sl("BEATS", 1))));
    }
    if str_eq(name, "rest_for") {
        return Some(x_b("music_restForBeats", TargetArg::NoTarget, None, None, slots1(x_sl("BEATS", 0))));
    }
    if str_eq(name, "play_note") {
        return Some(x_b("music_playNoteForBeats", TargetArg::NoTarget, None, None, slots2(x_sl("NOTE", 0), x_sl("BEATS", 1))));
    }
    if str_eq(name, "set_instrument") {
        return Some(x_b("music_setInstrument", TargetArg::NoTarget, None, None, slots1(x_sl("INSTRUMENT", 0))));
    }
    if str_eq(name, "change_tempo_by") {
        return Some(x_b("music_changeTempo", TargetArg::NoTarget, None, None, slots1(x_sl("TEMPO", 0))));
    }
    if str_eq(name, "set_tempo_to") {
        return Some(x_b("music_setTempo", TargetArg::NoTarget, None, None, slots1(x_sl("TEMPO", 0))));
    }
    if str_eq(name, "get_tempo") {
        return Some(x_b("music_getTempo", TargetArg::NoTarget, None, None, slots0()));
    }
    if str_eq(name, "turn_right") {
        return Some(x_b("motion_turnright", TargetArg::NoTarget, None, None, slots1(x_sl("DEGREES", 0))));
    }
    if str_eq(name, "turn_left") {
        return Some(x_b("motion_turnleft", TargetArg::NoTarget, None, None, slots1(x_sl("DEGREES", 0))));
    }
    if str_eq(name, "glide") {
        return Some(x_b("motion_glidesecstoxy", TargetArg::NoTarget, None, None, slots3(x_sl("SECS", 0), x_sl("X", 1), x_sl("Y", 2))));
    }
    if str_eq(name, "glide_to") {
        return Some(x_b("motion_glideto", TargetArg::NoTarget, None, None, slots2(x_sl("SECS", 0), x_sm("TO", 1, "motion_glideto_menu", MenuMap::GoTarget))));
    }
    if str_eq(name, "point_in_direction") {
        return Some(x_b("motion_pointindirection", TargetArg::NoTarget, None, None, slots1(x_sl("DIRECTION", 0))));
    }
    x_table2(name)
}

#[verifier::rlimit(100)]
#[verifier::spinoff_prover]
fn x_table2(name: &str) -> (r: Option<Builtin>)
    ensures
        builtin_opt_view(r) == table2(name@),
{
    if str_eq(name, "point_towards") {
        return Some(x_b("motion_pointtowards", TargetArg::NoTarget, None, None, slots1(x_sm("TOWARDS", 0, "motion_pointtowards_menu", MenuMap::Pointer))));
    }
    if str_eq(name, "change_x_by") {
        return Some(x_b("motion_changexby", TargetArg::NoTarget, None, None, slots1(x_sl("DX", 0))));
    }
    if str_eq(name, "set_x_to") {
        return Some(x_b("motion_setx", TargetArg::NoTarget, None, None, slots1(x_sl("X", 0))));
    }
    if str_eq(name, "change_y_by") {
        return Some(x_b("motion_changeyby", TargetArg::NoTarget, None, None, slots1(x_sl("DY", 0))));
    }
    if str_eq(name, "set_y_to") {
        return Some(x_b("motion_sety", TargetArg::NoTarget, None, None, slots1(x_sl("Y", 0))));
    }
    if str_eq(name, "if_on_edge_bounce") {
        return Some(x_b("motion_ifonedgebounce", TargetArg::NoTarget, None, None, slots0()));
    }
    if str_eq(name, "set_rotation_style") {
        return Some(x_b("motion_setrotationstyle", TargetArg::NoTarget, Some((lit("STYLE"), 0)), None, slots0()));
    }
    if str_eq(name, "say") {
        return Some(x_b("looks_say", TargetArg::NoTarget, None, None, slots1(x_sl("MESSAGE", 0))));
    }
    if str_eq(name, "say_for") {
        return Some(x_b("looks_sayforsecs", TargetArg::NoTarget, None, None, slots2(x_sl("MESSAGE", 0), x_sl("SECS", 1))));
    }
    if str_eq(name, "think") {
        return Some(x_b("looks_think", TargetArg::NoTarget, None, None, slots1(x_sl("MESSAGE", 0))));
    }
    if str_eq(name, "think_for") {
        return Some(x_b("looks_thinkforsecs", TargetArg::NoTarget, None, None, slots2(x_sl("MESSAGE", 0), x_sl("SECS", 1))));
    }
    if str_eq(name, "switch_costume_to") {
        return Some(x_b("looks_switchcostumeto", TargetArg::NoTarget, None, None, slots1(x_sm("COSTUME", 0, "looks_costume", MenuMap::Plain))));
    }
    if str_eq(name, "next_costume") {
        return Some(x_b("looks_nextcostume", TargetArg::NoTarget, None, None, slots0()));
    }
    if str_eq(name, "switch_backdrop_to") {
        return Some(x_b("looks_switchbackdropto", TargetArg::NoTarget, None, None, slots1(x_sm("BACKDROP", 0, "looks_backdrops", MenuMap::Plain))));
    }
    if str_eq(name, "next_backdrop") {
        return Some(x_b("looks_nextbackdrop", TargetArg::NoTarget, None, None, slots0()));
    }
    if str_eq(name, "change_size_by") {
        return Some(x_b("looks_changesizeby", TargetArg::NoTarget, None, None, slots1(x_sl("CHANGE", 0))));
    }
    x_table3(name)
}

#[verifier::rlimit(100)]
#[verifier::spinoff_prover]
fn x_table3(name: &str) -> (r: Option<Builtin>)
    ensures
        builtin_opt_view(r) == table3(name@),
{
    if str_eq(name, "set_size_to") {
        return Some(x_b("looks_setsizeto", TargetArg::NoTarget, None, None, slots1(x_sl("SIZE", 0))));
    }
    if str_eq(name, "change_effect_by") {
        return Some(x_b("looks_changeeffectby", TargetArg::NoTarget, Some((lit("EFFECT"), 0)), None, slots1(x_sl("CHANGE", 1))));
    }
    if str_eq(name, "set_effect_to") {
        return Some(x_b("looks_seteffectto", TargetArg::NoTarget, Some((lit("EFFECT"), 0)), None, slots1(x_sl("VALUE", 1))));
    }
    if str_eq(name, "clear_graphic_effects") {
        return Some(x_b("looks_cleargraphiceffects", TargetArg::NoTarget, None, None, slots0()));
    }
    if str_eq(name, "show") {
        return Some(x_b("looks_show", TargetArg::NoTarget, None, None, slots0()));
    }
    if str_eq(name, "hide") {
        return Some(x_b("looks_hide", TargetArg::NoTarget, None, None, slots0()));
    }
    if str_eq(name, "go_to_front_layer") {
        return Some(x_b("looks_gotofrontback", TargetArg::NoTarget, None, Some((lit("FRONT_BACK"), lit("front"))), slots0()));
    }
    if str_eq(name, "go_back_layer") {
        return Some(x_b("looks_gotofrontback", TargetArg::NoTarget, None, Some((lit("FRONT_BACK"), lit("back"))), slots0()));
    }
    if str_eq(name, "go_forward_layers") {
        return Some(x_b("looks_goforwardbackwardlayers", TargetArg::NoTarget, None, Some((lit("FORWARD_BACKWARD"), lit("forward"))), slots1(x_sl("NUM", 0))));
    }
    if str_eq(name, "go_backward_layers") {
        return Some(x_b("looks_goforwardbackwardlayers", TargetArg::NoTarget, None, Some((lit("FORWARD_BACKWARD"), lit("backward"))), slots1(x_sl("NUM", 0))));
    }
    if str_eq(name, "size") {
        return Some(x_b("looks_size", TargetArg::NoTarget, None, None, slots0()));
    }
    if str_eq(name, "costume_number") {
        return Some(x_b("looks_costumenumbername", TargetArg::NoTarget, None, Some((lit("NUMBER_NAME"), lit("number"))), slots0()));
    }
    if str_eq(name, "costume_name") {
        return Some(x_b("looks_costumenumbername", TargetArg::NoTarget, None, Some((lit("NUMBER_NAME"), lit("name"))), slots0()));
    }
    if str_eq(name, "backdrop_number") {
        return Some(x_b("looks_backdropnumbername", TargetArg::NoTarget, None, Some((lit("NUMBER_NAME"), lit("number"))), slots0()));
    }
    if str_eq(name, "backdrop_name") {
        return Some(x_b("looks_backdropnumbername", TargetArg::NoTarget, None, Some((lit("NUMBER_NAME"), lit("name"))), slots0()));
    }
    if str_eq(name, "start_sound") {
        return Some(x_b("sound_play", TargetArg::NoTarget, None, None, slots1(x_sl("SOUND_MENU", 0))));
    }
    x_table4(name)
}

#[verifier::rlimit(100)]
#[verifier::spinoff_prover]
fn x_table4(name: &str) -> (r: Option<Builtin>)
    ensures
        builtin_opt_view(r) == table4(name@),
{
    if str_eq(name, "play_sound_until_done") {
        return Some(x_b("sound_playuntildone", TargetArg::NoTarget, None, None, slots1(x_sl("SOUND_MENU", 0))));
    }
    if str_eq(name, "stop_all_sounds") {
        return Some(x_b("sound_stopallsounds", TargetArg::NoTarget, None, None, slots0()));
    }
    if str_eq(name, "change_volume_by") {
        return Some(x_b("sound_changevolumeby", TargetArg::NoTarget, None, None, slots1(x_sl("VOLUME", 0))));
    }
    if str_eq(name, "set_volume_to") {
        return Some(x_b("sound_setvolumeto", TargetArg::NoTarget, None, None, slots1(x_sl("VOLUME", 0))));
    }
    if str_eq(name, "volume") {
        return Some(x_b("sound_volume", TargetArg::NoTarget, None, None, slots0()));
    }
    if str_eq(name, "broadcast") {
        return Some(x_b("event_broadcast", TargetArg::NoTarget, None, None, slots1(x_sl("BROADCAST_INPUT", 0))));
    }
    if str_eq(name, "broadcast_and_wait") {
        return Some(x_b("event_broadcastandwait", TargetArg::NoTarget, None, None, slots1(x_sl("BROADCAST_INPUT", 0))));
    }
    if str_eq(name, "create_clone_of") {
        return Some(x_b("control_create_clone_of", TargetArg::NoTarget, None, None, slots1(x_sm("CLONE_OPTION", 0, "control_create_clone_of_menu", MenuMap::Clone))));
    }
    if str_eq(name, "delete_this_clone") {
        return Some(x_b("control_delete_this_clone", TargetArg::NoTarget, None, None, slots0()));
    }
    if str_eq(name, "wait") {
        return Some(x_b("control_wait", TargetArg::NoTarget, None, None, slots1(x_sl("DURATION", 0))));
    }
    if str_eq(name, "wait_until") {
        return Some(x_b("control_wait_until", TargetArg::NoTarget, None, None, slots1(x_sl("CONDITION", 0))));
    }
    if str_eq(name, "stop") {
        return Some(x_b("control_stop", TargetArg::NoTarget, Some((lit("STOP_OPTION"), 0)), None, slots0()));
    }
    if str_eq(name, "touching") {
        return Some(x_b("sensing_touchingobject", TargetArg::NoTarget, None, None, slots1(x_sm("TOUCHINGOBJECTMENU", 0, "sensing_touchingobjectmenu", MenuMap::Touch))));
    }
    if str_eq(name, "touching_color") {
        return Some(x_b("sensing_touchingcolor", TargetArg::NoTarget, None, None, slots1(x_sl("COLOR", 0))));
    }
    if str_eq(name, "color_touching_color") {
        return Some(x_b("sensing_coloristouchingcolor", TargetArg::NoTarget, None, None, slots2(x_sl("COLOR", 0), x_sl("COLOR2", 1))));
    }
    if str_eq(name, "distance_to") {
        return Some(x_b("sensing_distanceto", TargetArg::NoTarget, None, None, slots1(x_sm("DISTANCETOMENU", 0, "sensing_distancetomenu", MenuMap::Pointer))));
    }
    x_table5(name)
}

#[verifier::rlimit(100)]
#[verifier::spinoff_prover]
fn x_table5(name: &str) -> (r: Option<Builtin>)
    ensures
        builtin_opt_view(r) == table5(name@),
{
    if str_eq(name, "ask_and_wait") {
        return Some(x_b("sensing_askandwait", TargetArg::NoTarget, None, None, slots1(x_sl("QUESTION", 0))));
    }
    if str_eq(name, "answer") {
        return Some(x_b("sensing_answer", TargetArg::NoTarget, None, None, slots0()));
    }
    if str_eq(name, "key_pressed") {
        return Some(x_b("sensing_keypressed", TargetArg::NoTarget, None, None, slots1(x_sm("KEY_OPTION", 0, "sensing_keyoptions", MenuMap::Plain))));
    }
    if str_eq(name, "mouse_down") {
        return Some(x_b("sensing_mousedown", TargetArg::NoTarget, None, None, slots0()));
    }
    if str_eq(name, "mouse_x") {
        return Some(x_b("sensing_mousex", TargetArg::NoTarget, None, None, slots0()));
    }
    if str_eq(name, "mouse_y") {
        return Some(x_b("sensing_mousey", TargetArg::NoTarget, None, None, slots0()));
    }
    if str_eq(name, "set_drag_mode") {
        return Some(x_b("sensing_setdragmode", TargetArg::NoTarget, Some((lit("DRAG_MODE"), 0)), None, slots0()));
    }
    if str_eq(name, "loudness") {
        return Some(x_b("sensing_loudness", TargetArg::NoTarget, None, None, slots0()));
    }
    if str_eq(name, "timer") {
        return Some(x_b("sensing_timer", TargetArg::NoTarget, None, None, slots0()));
    }
    if str_eq(name, "reset_timer") {
        return Some(x_b("sensing_resettimer", TargetArg::NoTarget, None, None, slots0()));
    }
    if str_eq(name, "of") {
        return Some(x_b("sensing_of", TargetArg::NoTarget, Some((lit("PROPERTY"), 0)), None, slots1(x_sm("OBJECT", 1, "sensing_of_object_menu", MenuMap::StageObj))));
    }
    if str_eq(name, "current_year") {
        return Some(x_b("sensing_current", TargetArg::NoTarget, None, Some((lit("CURRENTMENU"), lit("YEAR"))), slots0()));
    }
    if str_eq(name, "current_month") {
        return Some(x_b("sensing_current", TargetArg::NoTarget, None, Some((lit("CURRENTMENU"), lit("MONTH"))), slots0()));
    }
    if str_eq(name, "current_date") {
        return Some(x_b("sensing_current", TargetArg::NoTarget, None, Some((lit("CURRENTMENU"), lit("DATE"))), slots0()));
    }
    if str_eq(name, "current_day_of_week") {
        return Some(x_b("sensing_current", TargetArg::NoTarget, None, Some((lit("CURRENTMENU"), lit("DAYOFWEEK"))), slots0()));
    }
    if str_eq(name, "current_hour") {
        return Some(x_b("sensing_current", TargetArg::NoTarget, None, Some((lit("CURRENTMENU"), lit("HOUR"))), slots0()));
    }
    x_table6(name)
}

#[verifier::rlimit(100)]
#[verifier::spinoff_prover]
fn x_table6(name: &str) -> (r: Option<Builtin>)
    ensures
        builtin_opt_view(r) == table6(name@),
{
    if str_eq(name, "current_minute") {
        return Some(x_b("sensing_current", TargetArg::NoTarget, None, Some((lit("CURRENTMENU"), lit("MINUTE"))), slots0()));
    }
    if str_eq(name, "current_second") {
        return Some(x_b("sensing_current", TargetArg::NoTarget, None, Some((lit("CURRENTMENU"), lit("SECOND"))), slots0()));
    }
    if str_eq(name, "days_since_2000") {
        return Some(x_b("sensing_dayssince2000", TargetArg::NoTarget, None, None, slots0()));
    }
    if str_eq(name, "username") {
        return Some(x_b("sensing_username", TargetArg::NoTarget, None, None, slots0()));
    }
    if str_eq(name, "random") {
        return Some(x_b("operator_random", TargetArg::NoTarget, None, None, slots2(x_sl("FROM", 0), x_sl("TO", 1))));
    }
    if str_eq(name, "letter_of") {
        return Some(x_b("operator_letter_of", TargetArg::NoTarget, None, None, slots2(x_sl("STRING", 0), x_sl("LETTER", 1))));
    }
    if str_eq(name, "length_of") {
        return Some(x_b("operator_length", TargetArg::NoTarget, None, None, slots1(x_sl("STRING", 0))));
    }
    if str_eq(name, "contains") {
        return Some(x_b("operator_contains", TargetArg::NoTarget, None, None, slots2(x_sl("STRING1", 0), x_sl("STRING2", 1))));
    }
    if str_eq(name, "mod") {
        return Some(x_b("operator_mod", TargetArg::NoTarget, None, None, slots2(x_sl("NUM1", 0), x_sl("NUM2", 1))));
    }
    if str_eq(name, "round") {
        return Some(x_b("operator_round", TargetArg::NoTarget, None, None, slots1(x_sl("NUM", 0))));
    }
    if str_eq(name, "abs") {
        return Some(x_b("operator_mathop", TargetArg::NoTarget, None, Some((lit("OPERATOR"), lit("abs"))), slots1(x_sl("NUM", 0))));
    }
    if str_eq(name, "floor") {
        return Some(x_b("operator_mathop", TargetArg::NoTarget, None, Some((lit("OPERATOR"), lit("floor"))), slots1(x_sl("NUM", 0))));
    }
    if str_eq(name, "sqrt") {
        return Some(x_b("operator_mathop", TargetArg::NoTarget, None, Some((lit("OPERATOR"), lit("sqrt"))), slots1(x_sl("NUM", 0))));
    }
    if str_eq(name, "sin") {
        return Some(x_b("operator_mathop", TargetArg::NoTarget, None, Some((lit("OPERATOR"), lit("sin"))), slots1(x_sl("NUM", 0))));
    }
    if str_eq(name, "cos") {
        return Some(x_b("operator_mathop", TargetArg::NoTarget, None, Some((lit("OPERATOR"), lit("cos"))), slots1(x_sl("NUM", 0))));
    }
    if str_eq(name, "tan") {
        return Some(x_b("operator_mathop", TargetArg::NoTarget, None, Some((lit("OPERATOR"), lit("tan"))), slots1(x_sl("NUM", 0))));
    }
    x_table7(name)
}

#[verifier::rlimit(100)]
#[verifier::spinoff_prover]
fn x_table7(name: &str) -> (r: Option<Builtin>)
    ensures
        builtin_opt_view(r) == table7(name@),
{
    if str_eq(name, "asin") {
        return Some(x_b("operator_mathop", TargetArg::NoTarget, None, Some((lit("OPERATOR"), lit("asin"))), slots1(x_sl("NUM", 0))));
    }
    if str_eq(name, "acos") {
        return Some(x_b("operator_mathop", TargetArg::NoTarget, None, Some((lit("OPERATOR"), lit("acos"))), slots1(x_sl("NUM", 0))));
    }
    if str_eq(name, "atan") {
        return Some(x_b("operator_mathop", TargetArg::NoTarget, None, Some((lit("OPERATOR"), lit("atan"))), slots1(x_sl("NUM", 0))));
    }
    if str_eq(name, "ln") {
        return Some(x_b("operator_mathop", TargetArg::NoTarget, None, Some((lit("OPERATOR"), lit("ln"))), slots1(x_sl("NUM", 0))));
    }
    if str_eq(name, "log") {
        return Some(x_b("operator_mathop", TargetArg::NoTarget, None, Some((lit("OPERATOR"), lit("log"))), slots1(x_sl("NUM", 0))));
    }
    if str_eq(name, "e^") {
        return Some(x_b("operator_mathop", TargetArg::NoTarget, None, Some((lit("OPERATOR"), lit("e^"))), slots1(x_sl("NUM", 0))));
    }
    if str_eq(name, "10^") {
        return Some(x_b("operator_mathop", TargetArg::NoTarget, None, Some((lit("OPERATOR"), lit("10^"))), slots1(x_sl("NUM", 0))));
    }
    if str_eq(name, "ceil") {
        return Some(x_b("operator_mathop", TargetArg::NoTarget, None, Some((lit("OPERATOR"), lit("ceiling"))), slots1(x_sl("NUM", 0))));
    }
    if str_eq(name, "x_position") {
        return Some(x_b("motion_xposition", TargetArg::NoTarget, None, None, slots0()));
    }
    if str_eq(name, "y_position") {
        return Some(x_b("motion_yposition", TargetArg::NoTarget, None, None, slots0()));
    }
    if str_eq(name, "direction") {
        return Some(x_b("motion_direction", TargetArg::NoTarget, None, None, slots0()));
    }
    if str_eq(name, "change_sound_effect_by") {
        return Some(x_b("sound_changeeffectby", TargetArg::NoTarget, Some((lit("EFFECT"), 0)), None, slots1(x_sl("VALUE", 1))));
    }
    if str_eq(name, "set_sound_effect_to") {
        return Some(x_b("sound_seteffectto", TargetArg::NoTarget, Some((lit("EFFECT"), 0)), None, slots1(x_sl("VALUE", 1))));
    }
    if str_eq(name, "clear_sound_effects") {
        return Some(x_b("sound_cleareffects", TargetArg::NoTarget, None, None, slots0()));
    }
    if str_eq(name, "set_variable") {
        return Some(x_b("data_setvariableto", TargetArg::Variable, None, None, slots1(x_sl("VALUE", 1))));
    }
    if str_eq(name, "change_variable_by") {
        return Some(x_b("data_changevariableby", TargetArg::Variable, None, None, slots1(x_sl("VALUE", 1))));
    }
    x_table8(name)
}

#[verifier::rlimit(100)]
#[verifier::spinoff_prover]
fn x_table8(name: &str) -> (r: Option<Builtin>)
    ensures
        builtin_opt_view(r) == table8(name@),
{
    if str_eq(name, "show_variable") {
        return Some(x_b("data_showvariable", TargetArg::Variable, None, None, slots0()));
    }
    if str_eq(name, "hide_variable") {
        return Some(x_b("data_hidevariable", TargetArg::Variable, None, None, slots0()));
    }
    if str_eq(name, "show_list") {
        return Some(x_b("data_showlist", TargetArg::List, None, None, slots0()));
    }
    if str_eq(name, "hide_list") {
        return Some(x_b("data_hidelist", TargetArg::List, None, None, slots0()));
    }
    if str_eq(name, "item_num_of_list") {
        return Some(x_b("data_itemnumoflist", TargetArg::List, None, None, slots1(x_sl("ITEM", 1))));
    }
    None
}

fn builtin(name: &str, nargs: usize) -> (r: Option<Builtin>)
    ensures
        builtin_opt_view(r) == builtin_spec(name@, nargs as nat),
{
    if str_eq(name, "go_to") {
        if nargs == 1 {
            Some(x_b("motion_goto", TargetArg::NoTarget, None, None, slots1(x_sm("TO", 0, "motion_goto_menu", MenuMap::GoTarget))))
        } else {
            Some(x_b("motion_gotoxy", TargetArg::NoTarget, None, None, slots2(x_sl("X", 0), x_sl("Y", 1))))
        }
    } else {
        x_table0(name)
    }
}

/// The number of arguments a known block reads.
pub open spec fn slots_arity(s: Seq<SlotV>) -> nat
    decreases s.len(),
{
    if s.len() == 0 {
        0
    } else {
        let r = slots_arity(s.subrange(0, s.len() - 1));
        let a = s[s.len() - 1].arg + 1;
        if a > r { a } else { r }
    }
}

pub open spec fn builtin_arity(b: BuiltinV) -> nat {
    let t: nat = if b.target is NoTarget { 0 } else { 1 };
    let x: nat = match b.text_field {
        Some((_, a)) => a + 1,
        None => 0,
    };
    let m: nat = if t > x { t } else { x };
    let s = slots_arity(b.slots);
    if m > s { m } else { s }
}

/// The text a menu gets for a text argument.
pub open spec fn menu_value(t: MenuMap, v: Seq<char>) -> Seq<char> {
    match t {
        MenuMap::Plain => v,
        MenuMap::GoTarget => if v == "mouse-pointer"@ {
            "_mouse_"@
        } else if v == "random-position"@ {
            "_random_"@
        } else {
            v
        },
        MenuMap::Pointer => if v == "mouse-pointer"@ { "_mouse_"@ } else { v },
        MenuMap::Clone => if v == "myself"@ { "_myself_"@ } else { v },
        MenuMap::Touch => if v == "mouse-pointer"@ {
            "_mouse_"@
        } else if v == "edge"@ {
            "_edge_"@
        } else {
            v
        },
        MenuMap::StageObj => if v == "Stage"@ { "_stage_"@ } else { v },
    }
}

fn menu_value_of(t: MenuMap, v: &String) -> (r: String)
    ensures
        r@ == menu_value(t, v@),
{
    match t {
        MenuMap::Plain => v.clone(),
        MenuMap::GoTarget => if str_eq(v.as_str(), "mouse-pointer") {
            lit("_mouse_")
        } else if str_eq(v.as_str(), "random-position") {
            lit("_random_")
        } else {
            v.clone()
        },
        MenuMap::Pointer => if str_eq(v.as_str(), "mouse-pointer") { lit("_mouse_") } else { v.clone() },
        MenuMap::Clone => if str_eq(v.as_str(), "myself") { lit("_myself_") } else { v.clone() },
        MenuMap::Touch => if str_eq(v.as_str(), "mouse-pointer") {
            lit("_mouse_")
        } else if str_eq(v.as_str(), "edge") {
            lit("_edge_")
        } else {
            v.clone()
        },
        MenuMap::StageObj => if str_eq(v.as_str(), "Stage") { lit("_stage_") } else { v.clone() },
    }
}

fn arity_of(b: &Builtin) -> (r: usize)
    ensures
        r as nat == builtin_arity(builtin_view(*b)),
{
    let mut m: usize = match b.target {
        TargetArg::NoTarget => 0,
        _ => 1,
    };
    assert(m <= 256);
    match &b.text_field {
        Some((_, a)) => {
            if (*a as usize) + 1 > m {
                m = (*a as usize) + 1;
            }
        },
        None => {},
    }
    let ghost sv = slots_view(b.slots@);
    let mut s: usize = 0;
    let mut i: usize = 0;
    assert(sv.subrange(0, 0).len() == 0);
    while i < b.slots.len()
        invariant
            i <= b.slots.len(),
            sv == slots_view(b.slots@),
            s as nat == slots_arity(sv.subrange(0, i as int)),
            s <= 256,
        decreases b.slots.len() - i,
    {
        assert(sv.subrange(0, i + 1).subrange(0, i as int) =~= sv.subrange(0, i as int));
        assert(sv[i as int].arg == b.slots@[i as int].arg);
        if (b.slots[i].arg as usize) + 1 > s {
            s = (b.slots[i].arg as usize) + 1;
        }
        i += 1;
    }
    assert(sv.subrange(0, i as int) =~= sv);
    if m > s { m } else { s }
}

// ---------------------------------------------------------------------------
// Looking up variables, lists and procedure arguments
// ---------------------------------------------------------------------------

/// The index of the first entry named `name` (the first of its value), or -1.
pub open spec fn named_index<T>(s: Seq<(String, (String, T))>, name: Seq<char>) -> int
    decreases s.len(),
{
    if s.len() == 0 {
        -1
    } else {
        let r = named_index(s.subrange(0, s.len() - 1), name);
        if r >= 0 {
            r
        } else if s[s.len() - 1].1.0@ == name {
            s.len() - 1
        } else {
            -1
        }
    }
}

/// The name and id of the first entry named `name`.
pub open spec fn named_ref<T>(s: Seq<(String, (String, T))>, name: Seq<char>) -> Option<(Seq<char>, Seq<char>)> {
    let i = named_index(s, name);
    if i >= 0 {
        Some((s[i].1.0@, s[i].0@))
    } else {
        None
    }
}

/// A variable of the target, else of the stage.
pub open spec fn var_ref(ctx: CompilerContext, name: Seq<char>) -> Option<(Seq<char>, Seq<char>)> {
    match named_ref(ctx.variables@, name) {
        Some(r) => Some(r),
        None => match ctx.global_variables {
            Some(g) => named_ref(g@, name),
            None => None,
        },
    }
}

/// A list of the target, else of the stage.
pub open spec fn list_ref(ctx: CompilerContext, name: Seq<char>) -> Option<(Seq<char>, Seq<char>)> {
    match named_ref(ctx.lists@, name) {
        Some(r) => Some(r),
        None => match ctx.global_lists {
            Some(g) => named_ref(g@, name),
            None => None,
        },
    }
}

/// The name an argument gives, as a text or as a bare identifier.
pub open spec fn name_of_arg(e: ExprV) -> Option<Seq<char>> {
    match e {
        ExprV::String(s) => Some(s),
        ExprV::Variable(s) => Some(s),
        _ => None,
    }
}

/// The type of a parameter of the procedure being compiled.
pub open spec fn arg_type(ctx: CompilerContext, name: Seq<char>) -> Option<Type> {
    match ctx.current_proc_args {
        Some(a) => kv_get(a@, name),
        None => None,
    }
}

proof fn lemma_named_index_prefix<T>(s: Seq<(String, (String, T))>, i: int, name: Seq<char>)
    requires
        0 <= i <= s.len(),
        forall|j: int| 0 <= j < i ==> #[trigger] s[j].1.0@ != name,
        i < s.len() ==> s[i].1.0@ == name,
    ensures
        named_index(s, name) == if i < s.len() { i } else { -1 },
    decreases s.len(),
{
    if s.len() > 0 {
        let init = s.subrange(0, s.len() - 1);
        if i < s.len() - 1 {
            assert forall|j: int| 0 <= j < i implies #[trigger] init[j].1.0@ != name by {
                assert(init[j] == s[j]);
            }
            lemma_named_index_prefix(init, i, name);
        } else {
            assert forall|j: int| 0 <= j < init.len() implies #[trigger] init[j].1.0@ != name by {
                assert(init[j] == s[j]);
            }
            lemma_named_index_prefix(init, init.len() as int, name);
        }
    }
}

fn find_named<T>(s: &Vec<(String, (String, T))>, name: &str) -> (r: Option<usize>)
    ensures
        match r {
            Some(i) => i as int == named_index(s@, name@) && i < s@.len(),
            None => named_index(s@, name@) == -1,
        },
{
    let mut i: usize = 0;
    while i < s.len()
        invariant
            i <= s.len(),
            forall|j: int| 0 <= j < i ==> #[trigger] s@[j].1.0@ != name@,
        decreases s.len() - i,
    {
        if str_eq(s[i].1.0.as_str(), name) {
            proof {
                lemma_named_index_prefix(s@, i as int, name@);
            }
            return Some(i);
        }
        i += 1;
    }
    proof {
        lemma_named_index_prefix(s@, i as int, name@);
    }
    None
}

fn named_ref_of<T>(s: &Vec<(String, (String, T))>, name: &str) -> (r: Option<(String, String)>)
    ensures
        match r {
            Some((a, b)) => named_ref(s@, name@) == Some((a@, b@)),
            None => named_ref(s@, name@) is None,
        },
{
    match find_named(s, name) {
        Some(i) => Some((s[i].1.0.clone(), s[i].0.clone())),
        None => None,
    }
}

fn lookup_variable(ctx: &CompilerContext, name: &str) -> (r: Option<(String, String)>)
    ensures
        match r {
            Some((a, b)) => var_ref(*ctx, name@) == Some((a@, b@)),
            None => var_ref(*ctx, name@) is None,
        },
{
    match named_ref_of(&ctx.variables, name) {
        Some(x) => Some(x),
        None => match &ctx.global_variables {
            Some(g) => named_ref_of(g, name),
            None => None,
        },
    }
}

fn lookup_list(ctx: &CompilerContext, name: &str) -> (r: Option<(String, String)>)
    ensures
        match r {
            Some((a, b)) => list_ref(*ctx, name@) == Some((a@, b@)),
            None => list_ref(*ctx, name@) is None,
        },
{
    match named_ref_of(&ctx.lists, name) {
        Some(x) => Some(x),
        None => match &ctx.global_lists {
            Some(g) => named_ref_of(g, name),
            None => None,
        },
    }
}

/// The variable an argument names, as (name, id).
fn find_variable_arg(expr: &Expr, ctx: &CompilerContext) -> (r: Option<(String, String)>)
    ensures
        match r {
            Some((a, b)) => name_of_arg(expr@) matches Some(n) && var_ref(*ctx, n) == Some((a@, b@)),
            None => match name_of_arg(expr@) {
                Some(n) => var_ref(*ctx, n) is None,
                None => true,
            },
        },
{
    match expr {
        Expr::String(s) => lookup_variable(ctx, s.as_str()),
        Expr::Variable(s) => lookup_variable(ctx, s.as_str()),
        _ => None,
    }
}

/// The list an argument names, as (name, id).
fn find_list_arg(expr: &Expr, ctx: &CompilerContext) -> (r: Option<(String, String)>)
    ensures
        match r {
            Some((a, b)) => name_of_arg(expr@) matches Some(n) && list_ref(*ctx, n) == Some((a@, b@)),
            None => match name_of_arg(expr@) {
                Some(n) => list_ref(*ctx, n) is None,
                None => true,
            },
        },
{
    match expr {
        Expr::String(s) => lookup_list(ctx, s.as_str()),
        Expr::Variable(s) => lookup_list(ctx, s.as_str()),
        _ => None,
    }
}

fn lookup_arg_type(ctx: &CompilerContext, name: &str) -> (r: Option<Type>)
    ensures
        r == arg_type(*ctx, name@),
{
    match &ctx.current_proc_args {
        Some(a) => match kv_find(a, name) {
            Some(i) => Some(a[i].1),
            None => None,
        },
        None => None,
    }
}

// ---------------------------------------------------------------------------
// Compiling expressions
// ---------------------------------------------------------------------------

/// The opcode of a binary operator; `!=`, `>=` and `<=` use the opposite
/// comparison under a `not`.
pub open spec fn binop_opcode(op: Op) -> Seq<char> {
    match op {
        Op::Add => "operator_add"@,
        Op::Sub => "operator_subtract"@,
        Op::Mul => "operator_multiply"@,
        Op::Div => "operator_divide"@,
        Op::Mod => "operator_mod"@,
        Op::Lt => "operator_lt"@,
        Op::Gt => "operator_gt"@,
        Op::Eq => "operator_equals"@,
        Op::And => "operator_and"@,
        Op::Or => "operator_or"@,
        Op::Ne => "operator_equals"@,
        Op::Ge => "operator_lt"@,
        Op::Le => "operator_gt"@,
    }
}

pub open spec fn binop_numeric(op: Op) -> bool {
    op == Op::Add || op == Op::Sub || op == Op::Mul || op == Op::Div || op == Op::Mod
}

pub open spec fn binop_negated(op: Op) -> bool {
    op == Op::Ne || op == Op::Ge || op == Op::Le
}

pub open spec fn reporter_opcode(t: Type) -> Seq<char> {
    if t == Type::Boolean {
        "argument_reporter_boolean"@
    } else {
        "argument_reporter_string_number"@
    }
}

/// The opcode a call compiles to: a known block, `join`, or a procedure of
/// the target.
pub open spec fn call_opcode(procs: Seq<(String, ProcedureInfo)>, name: Seq<char>, nargs: nat) -> Option<Seq<char>> {
    match builtin_spec(name, nargs) {
        Some(b) => Some(b.opcode),
        None => if name == "join"@ {
            Some("operator_join"@)
        } else if kv_index(procs, name) >= 0 {
            Some("procedures_call"@)
        } else {
            None
        },
    }
}

/// The names of the procedures a context knows.
pub open spec fn proc_keys(p: Seq<(String, ProcedureInfo)>) -> Set<Seq<char>> {
    Set::new(|n: Seq<char>| kv_index(p, n) >= 0)
}

/// A call the compiler can compile: a known block with enough arguments,
/// `join`, or a procedure of the target.
pub open spec fn call_known(procs: Set<Seq<char>>, name: Seq<char>, nargs: nat) -> bool {
    match builtin_spec(name, nargs) {
        Some(b) => nargs >= builtin_arity(b),
        None => name == "join"@ || procs.contains(name),
    }
}

/// Every call in the expression can be compiled.
pub open spec fn calls_ok(e: ExprV, procs: Set<Seq<char>>) -> bool
    decreases e,
{
    match e {
        ExprV::Call(n, args) => call_known(procs, n, args.len()) && calls_ok_all(args, procs),
        ExprV::ProcCall(n, args) => call_known(procs, n, args.len()) && calls_ok_all(args, procs),
        ExprV::BinOp(l, _, r) => calls_ok(*l, procs) && calls_ok(*r, procs),
        ExprV::UnOp(_, x) => calls_ok(*x, procs),
        _ => true,
    }
}

pub open spec fn calls_ok_all(s: Seq<ExprV>, procs: Set<Seq<char>>) -> bool
    decreases s,
{
    if s.len() == 0 {
        true
    } else {
        calls_ok_all(s.subrange(0, s.len() - 1), procs) && calls_ok(s[s.len() - 1], procs)
    }
}

proof fn lemma_calls_ok_all(s: Seq<ExprV>, procs: Set<Seq<char>>)
    requires
        calls_ok_all(s, procs),
    ensures
        forall|i: int| 0 <= i < s.len() ==> calls_ok(#[trigger] s[i], procs),
    decreases s.len(),
{
    if s.len() > 0 {
        let init = s.subrange(0, s.len() - 1);
        lemma_calls_ok_all(init, procs);
        assert forall|i: int| 0 <= i < s.len() implies calls_ok(#[trigger] s[i], procs) by {
            if i < s.len() - 1 {
                assert(init[i] == s[i]);
            }
        }
    }
}

/// `input` is `[2, id]` and the block `id` has opcode `op`.
pub open spec fn points_to(blocks: Seq<(String, Block)>, i: Input, op: Seq<char>) -> bool {
    &&& input_child(i) is Some
    &&& input_view(i) == block_input(input_child(i)->0)
    &&& opcode_at(blocks, input_child(i)->0) == Some(op)
}

/// The input a literal compiles to; other expressions are not constrained
/// here.
pub open spec fn literal_input_ok(e: ExprV, i: Input) -> bool {
    match e {
        ExprV::Number(n) => input_view(i) == prim_input(4, JsonV::Num(n)),
        ExprV::String(s) => input_view(i) == prim_input(10, JsonV::Str(s)),
        ExprV::List(_) => input_view(i) == empty_text_input(),
        _ => true,
    }
}

/// What an expression compiles to, given the context before (`pre`) and
/// after (`post`): literals become shadow values, a variable a variable
/// reference (or an argument reporter inside a procedure, or an empty text),
/// and everything else a reporter block with the right opcode.
pub open spec fn compiled_input(e: ExprV, pre: CompilerContext, post: CompilerContext, i: Input) -> bool
    decreases e, 0nat,
{
    match e {
        ExprV::Number(_) => literal_input_ok(e, i),
        ExprV::String(_) => literal_input_ok(e, i),
        ExprV::List(_) => literal_input_ok(e, i),
        ExprV::Bool(v) => {
            &&& points_to(post.blocks@, i, "operator_equals"@)
            &&& {
                let b = normal_at(post.blocks@, input_child(i)->0)->0;
                &&& b.inputs@.len() == 2
                &&& b.inputs@[0].0@ == "OPERAND1"@
                &&& input_view(b.inputs@[0].1) == prim_input(10, JsonV::Str("1"@))
                &&& b.inputs@[1].0@ == "OPERAND2"@
                &&& input_view(b.inputs@[1].1) == prim_input(10, JsonV::Str(if v { "1"@ } else { "0"@ }))
            }
        },
        ExprV::Variable(n) => match var_ref(pre, n) {
            Some((_, vid)) => input_view(i) == seq![
                JsonV::Int(3),
                JsonV::Array(seq![JsonV::Int(12), JsonV::Str(n), JsonV::Str(vid)]),
                JsonV::Array(seq![JsonV::Int(10), JsonV::Str(Seq::empty())]),
            ],
            None => match arg_type(pre, n) {
                Some(t) => points_to(post.blocks@, i, reporter_opcode(t)),
                None => input_view(i) == empty_text_input(),
            },
        },
        ExprV::Call(n, args) => points_to(post.blocks@, i, call_opcode(pre.procedures@, n, args.len())->0),
        ExprV::ProcCall(n, args) => points_to(post.blocks@, i, call_opcode(pre.procedures@, n, args.len())->0),
        ExprV::BinOp(l, op, r) => {
            &&& points_to(post.blocks@, i, if binop_negated(op) { "operator_not"@ } else { binop_opcode(op) })
            &&& {
                let top = normal_at(post.blocks@, input_child(i)->0)->0;
                let inner = if binop_negated(op) {
                    normal_at(post.blocks@, input_child(top.inputs@[0].1)->0)->0
                } else {
                    top
                };
                let k1 = if binop_numeric(op) { "NUM1"@ } else { "OPERAND1"@ };
                let k2 = if binop_numeric(op) { "NUM2"@ } else { "OPERAND2"@ };
                &&& binop_negated(op) ==> {
                    &&& top.inputs@.len() == 1
                    &&& top.inputs@[0].0@ == "OPERAND"@
                    &&& points_to(post.blocks@, top.inputs@[0].1, binop_opcode(op))
                }
                &&& inner.inputs@.len() == 2
                &&& inner.inputs@[0].0@ == k1
                &&& inner.inputs@[1].0@ == k2
                &&& if op == Op::And || op == Op::Or {
                    bool_input(*l, pre, post, inner.inputs@[0].1) && bool_input(*r, pre, post, inner.inputs@[1].1)
                } else {
                    compiled_input(*l, pre, post, inner.inputs@[0].1) && compiled_input(*r, pre, post, inner.inputs@[1].1)
                }
            }
        },
        ExprV::UnOp(op, _) => points_to(
            post.blocks@,
            i,
            if op == UnOp::Not { "operator_not"@ } else { "operator_subtract"@ },
        ),
    }
}

/// What an operand of `and`, `or` and `not` compiles to: a number or text
/// literal is wrapped in a `join` with the empty text, so that it sits in a
/// boolean slot.
pub open spec fn bool_input(e: ExprV, pre: CompilerContext, post: CompilerContext, i: Input) -> bool
    decreases e, 1nat,
{
    if e is Number || e is String {
        points_to(post.blocks@, i, "operator_join"@)
    } else {
        compiled_input(e, pre, post, i)
    }
}

/// The block that holds the two operands of a compiled binary operator at
/// input `i`: the block `i` points to, or, for `!=`, `>=` and `<=`, the
/// block inside its `not`.
pub open spec fn operand_block(blocks: Seq<(String, Block)>, i: Input, op: Op) -> NormalBlock {
    let top = normal_at(blocks, input_child(i)->0)->0;
    if op == Op::Ne || op == Op::Ge || op == Op::Le {
        normal_at(blocks, input_child(top.inputs@[0].1)->0)->0
    } else {
        top
    }
}

/// Each binary operator compiles to its Scratch block: `+ - * / %` to
/// add, subtract, multiply, divide and mod; `<` to `operator_lt` and `>` to
/// `operator_gt`; `==` to `operator_equals`; `&&` and `||` to and and or;
/// `!=`, `>=` and `<=` to a `not` around equals, less-than and greater-than.
pub proof fn law_operator_blocks(l: ExprV, op: Op, r: ExprV, pre: CompilerContext, post: CompilerContext, i: Input)
    requires
        compiled_input(ExprV::BinOp(Box::new(l), op, Box::new(r)), pre, post, i),
    ensures
        op == Op::Add ==> points_to(post.blocks@, i, "operator_add"@),
        op == Op::Sub ==> points_to(post.blocks@, i, "operator_subtract"@),
        op == Op::Mul ==> points_to(post.blocks@, i, "operator_multiply"@),
        op == Op::Div ==> points_to(post.blocks@, i, "operator_divide"@),
        op == Op::Mod ==> points_to(post.blocks@, i, "operator_mod"@),
        op == Op::Lt ==> points_to(post.blocks@, i, "operator_lt"@),
        op == Op::Gt ==> points_to(post.blocks@, i, "operator_gt"@),
        op == Op::Eq ==> points_to(post.blocks@, i, "operator_equals"@),
        op == Op::And ==> points_to(post.blocks@, i, "operator_and"@),
        op == Op::Or ==> points_to(post.blocks@, i, "operator_or"@),
        op == Op::Ne ==> points_to(post.blocks@, i, "operator_not"@) && points_to(
            post.blocks@,
            normal_at(post.blocks@, input_child(i)->0)->0.inputs@[0].1,
            "operator_equals"@,
        ),
        op == Op::Ge ==> points_to(post.blocks@, i, "operator_not"@) && points_to(
            post.blocks@,
            normal_at(post.blocks@, input_child(i)->0)->0.inputs@[0].1,
            "operator_lt"@,
        ),
        op == Op::Le ==> points_to(post.blocks@, i, "operator_not"@) && points_to(
            post.blocks@,
            normal_at(post.blocks@, input_child(i)->0)->0.inputs@[0].1,
            "operator_gt"@,
        ),
{
}

/// The left operand of a binary operator goes to the first input of its
/// block (`NUM1` for arithmetic, `OPERAND1` otherwise) and the right operand
/// to the second; the operands of `&&` and `||` sit in boolean slots.
pub proof fn law_operands_in_order(l: ExprV, op: Op, r: ExprV, pre: CompilerContext, post: CompilerContext, i: Input)
    requires
        compiled_input(ExprV::BinOp(Box::new(l), op, Box::new(r)), pre, post, i),
    ensures
        ({
            let b = operand_block(post.blocks@, i, op);
            &&& b.inputs@.len() == 2
            &&& (op == Op::Add || op == Op::Sub || op == Op::Mul || op == Op::Div || op == Op::Mod) ==> {
                &&& b.inputs@[0].0@ == "NUM1"@
                &&& b.inputs@[1].0@ == "NUM2"@
            }
            &&& !(op == Op::Add || op == Op::Sub || op == Op::Mul || op == Op::Div || op == Op::Mod) ==> {
                &&& b.inputs@[0].0@ == "OPERAND1"@
                &&& b.inputs@[1].0@ == "OPERAND2"@
            }
            &&& (op == Op::And || op == Op::Or) ==> {
                &&& bool_input(l, pre, post, b.inputs@[0].1)
                &&& bool_input(r, pre, post, b.inputs@[1].1)
            }
            &&& !(op == Op::And || op == Op::Or) ==> {
                &&& compiled_input(l, pre, post, b.inputs@[0].1)
                &&& compiled_input(r, pre, post, b.inputs@[1].1)
            }
        }),
{
}

/// The parts of a call's block before it gets an id.
pub struct CallBlock {
    pub opcode: String,
    pub inputs: Vec<(String, Input)>,
    pub fields: Vec<(String, Field)>,
    pub mutation: Option<Mutation>,
}

pub open spec fn fields_view(s: Seq<(String, Field)>) -> Seq<(Seq<char>, Seq<JsonV>)> {
    s.map_values(|e: (String, Field)| (e.0@, field_view(e.1)))
}

/// The `LIST` or `VARIABLE` field of a known block, when its first argument
/// names a list or variable that exists.
pub open spec fn target_fields(ctx: CompilerContext, b: BuiltinV, args: Seq<ExprV>) -> Seq<(Seq<char>, Seq<JsonV>)> {
    match b.target {
        TargetArg::List => match name_of_arg(args[0]) {
            Some(n) => match list_ref(ctx, n) {
                Some((ln, lid)) => seq![("LIST"@, seq![JsonV::Str(ln), JsonV::Str(lid)])],
                None => Seq::empty(),
            },
            None => Seq::empty(),
        },
        TargetArg::Variable => match name_of_arg(args[0]) {
            Some(n) => match var_ref(ctx, n) {
                Some((vn, vid)) => seq![("VARIABLE"@, seq![JsonV::Str(vn), JsonV::Str(vid)])],
                None => Seq::empty(),
            },
            None => Seq::empty(),
        },
        TargetArg::NoTarget => Seq::empty(),
    }
}

/// All fields of a known block: the data field, the field taken from a text
/// argument (when that argument is a text literal), and the constant field.
pub open spec fn builtin_fields(ctx: CompilerContext, b: BuiltinV, args: Seq<ExprV>) -> Seq<(Seq<char>, Seq<JsonV>)> {
    target_fields(ctx, b, args) + match b.text_field {
        Some((k, a)) => match args[a as int] {
            ExprV::String(t) => seq![(k, plain_field(t))],
            _ => Seq::empty(),
        },
        None => Seq::empty(),
    } + match b.const_field {
        Some((k, v)) => seq![(k, plain_field(v))],
        None => Seq::empty(),
    }
}

/// A menu input holding a text argument is `[1, <menu block id>]`; any
/// other input holds what its argument compiles to.
pub open spec fn slot_input_ok(slot: SlotV, arg: ExprV, i: Input, pre: CompilerContext, post: CompilerContext) -> bool {
    if slot.menu is Some && arg is String {
        &&& input_view(i).len() == 2
        &&& input_view(i)[0] == JsonV::Int(1)
        &&& input_view(i)[1] matches JsonV::Str(mid) && menu_block_ok(post.blocks@, mid, slot, arg->String_0)
    } else {
        compiled_input(arg, pre, post, i)
    }
}

/// The shadow menu block `mid` of a slot: the slot's menu opcode, and one
/// field, named as the slot, holding the text the menu maps `t` to.
pub open spec fn menu_block_ok(blocks: Seq<(String, Block)>, mid: Seq<char>, slot: SlotV, t: Seq<char>) -> bool {
    normal_at(blocks, mid) matches Some(mb) && {
        &&& mb.shadow
        &&& mb.opcode@ == (slot.menu->0).0
        &&& fields_view(mb.fields@) == seq![(slot.key, plain_field(menu_value((slot.menu->0).1, t)))]
    }
}

/// The inputs of a known block, one per slot, in order.
pub open spec fn slots_inputs_ok(
    slots: Seq<SlotV>,
    args: Seq<ExprV>,
    inputs: Seq<(String, Input)>,
    pre: CompilerContext,
    post: CompilerContext,
) -> bool {
    &&& inputs.len() == slots.len()
    &&& forall|k: int|
        0 <= k < slots.len() ==> {
            &&& (#[trigger] inputs[k]).0@ == slots[k].key
            &&& slot_input_ok(slots[k], args[slots[k].arg as int], inputs[k].1, pre, post)
        }
}

pub open spec fn bool_text(b: bool) -> Seq<char> {
    if b { "true"@ } else { "false"@ }
}

/// The input `i` joins the arguments from `k` on: the last argument
/// alone, or a `join` block of argument `k` and the join of the rest.
pub open spec fn join_chain(args: Seq<ExprV>, k: int, i: Input, pre: CompilerContext, post: CompilerContext) -> bool
    decreases args.len() - k,
{
    if k < 0 || k >= args.len() {
        false
    } else if k == args.len() - 1 {
        compiled_input(args[k], pre, post, i)
    } else {
        &&& points_to(post.blocks@, i, "operator_join"@)
        &&& {
            let b = normal_at(post.blocks@, input_child(i)->0)->0;
            &&& b.inputs@.len() == 2
            &&& b.inputs@[0].0@ == "STRING1"@
            &&& b.inputs@[1].0@ == "STRING2"@
            &&& compiled_input(args[k], pre, post, b.inputs@[0].1)
            &&& join_chain(args, k + 1, b.inputs@[1].1, pre, post)
        }
    }
}

proof fn lemma_join_chain_kept(args: Seq<ExprV>, k: int, i: Input, pre: CompilerContext, a: CompilerContext, b: CompilerContext)
    requires
        join_chain(args, k, i, pre, a),
        blocks_kept(a.blocks@, b.blocks@),
    ensures
        join_chain(args, k, i, pre, b),
    decreases args.len() - k,
{
    if k == args.len() - 1 {
        lemma_compiled_input_kept(args[k], pre, a, b, i);
    } else {
        lemma_points_kept(a.blocks@, b.blocks@, i, "operator_join"@);
        let blk = normal_at(a.blocks@, input_child(i)->0)->0;
        lemma_compiled_input_kept(args[k], pre, a, b, blk.inputs@[0].1);
        lemma_join_chain_kept(args, k + 1, blk.inputs@[1].1, pre, a, b);
    }
}

/// What a call compiles to, besides the blocks its arguments become.
pub open spec fn call_block_ok(pre: CompilerContext, name: Seq<char>, args: Seq<ExprV>, cb: CallBlock, post: CompilerContext) -> bool {
    &&& call_opcode(pre.procedures@, name, args.len()) == Some(cb.opcode@)
    &&& match builtin_spec(name, args.len()) {
        Some(b) => {
            &&& fields_view(cb.fields@) == builtin_fields(pre, b, args)
            &&& slots_inputs_ok(b.slots, args, cb.inputs@, pre, post)
            &&& cb.mutation is None
        },
        None => if name == "join"@ {
            &&& kv_keys(cb.inputs@) == seq!["STRING1"@, "STRING2"@]
            &&& cb.fields@.len() == 0
            &&& cb.mutation is None
            &&& (args.len() == 0 ==> input_view(cb.inputs@[0].1) == empty_text_input())
            &&& (args.len() <= 1 ==> input_view(cb.inputs@[1].1) == empty_text_input())
            &&& (args.len() >= 1 ==> compiled_input(args[0], pre, post, cb.inputs@[0].1))
            &&& (args.len() >= 2 ==> join_chain(args, 1, cb.inputs@[1].1, pre, post))
        } else {
            let info = kv_get(pre.procedures@, name)->0;
            let n = if args.len() < info.arg_ids@.len() { args.len() } else { info.arg_ids@.len() };
            &&& kv_keys(cb.inputs@) == strs_view(info.arg_ids@).subrange(0, n as int)
            &&& forall|k: int| 0 <= k < n ==> compiled_input(args[k], pre, post, #[trigger] cb.inputs@[k].1)
            &&& cb.fields@.len() == 0
            &&& cb.mutation matches Some(m) && {
                &&& m.tag_name@ == "mutation"@
                &&& m.children matches Some(c) && c@.len() == 0
                &&& m.proccode matches Some(pc) && pc@ == info.proccode@
                &&& m.argumentids matches Some(ai) && ai@ == json_string_array(strs_view(info.arg_ids@))
                &&& m.argumentnames is None
                &&& m.argumentdefaults is None
                &&& m.warp matches Some(w) && w@ == bool_text(info.warp)
            }
        },
    }
}

fn empty_json_text() -> (r: JsonValue)
    ensures
        r@ == JsonV::Str(Seq::empty()),
{
    proof {
        reveal_strlit("");
        assert(""@ =~= Seq::<char>::empty());
    }
    jtext("")
}

fn bool_str(b: bool) -> (r: String)
    ensures
        r@ == bool_text(b),
{
    if b { lit("true") } else { lit("false") }
}

fn inputs1(k: &str, i: Input) -> (r: Vec<(String, Input)>)
    ensures
        r@.len() == 1,
        r@[0].0@ == k@,
        r@[0].1 == i,
{
    let mut v: Vec<(String, Input)> = Vec::new();
    v.push((lit(k), i));
    v
}

fn inputs2(k1: &str, i1: Input, k2: &str, i2: Input) -> (r: Vec<(String, Input)>)
    ensures
        r@.len() == 2,
        r@[0].0@ == k1@,
        r@[0].1 == i1,
        r@[1].0@ == k2@,
        r@[1].1 == i2,
        kv_keys(r@) == seq![k1@, k2@],
{
    let mut v: Vec<(String, Input)> = Vec::new();
    v.push((lit(k1), i1));
    v.push((lit(k2), i2));
    assert(kv_keys(v@) =~= seq![k1@, k2@]);
    v
}

fn push_field(v: &mut Vec<(String, Field)>, k: String, f: Field)
    ensures
        fields_view(final(v)@) == fields_view(old(v)@).push((k@, field_view(f))),
{
    v.push((k, f));
    assert(fields_view(v@) =~= fields_view(old(v)@).push((k@, field_view(f))));
}

fn binop_opcode_of(op: Op) -> (r: String)
    ensures
        r@ == binop_opcode(op),
{
    match op {
        Op::Add => lit("operator_add"),
        Op::Sub => lit("operator_subtract"),
        Op::Mul => lit("operator_multiply"),
        Op::Div => lit("operator_divide"),
        Op::Mod => lit("operator_mod"),
        Op::Lt => lit("operator_lt"),
        Op::Gt => lit("operator_gt"),
        Op::Eq => lit("operator_equals"),
        Op::And => lit("operator_and"),
        Op::Or => lit("operator_or"),
        Op::Ne => lit("operator_equals"),
        Op::Ge => lit("operator_lt"),
        Op::Le => lit("operator_gt"),
    }
}

proof fn lemma_slots_arity(s: Seq<SlotV>)
    ensures
        forall|k: int| 0 <= k < s.len() ==> (#[trigger] s[k]).arg + 1 <= slots_arity(s),
    decreases s.len(),
{
    if s.len() > 0 {
        let init = s.subrange(0, s.len() - 1);
        lemma_slots_arity(init);
        assert forall|k: int| 0 <= k < s.len() implies (#[trigger] s[k]).arg + 1 <= slots_arity(s) by {
            if k < s.len() - 1 {
                assert(init[k] == s[k]);
            }
        }
    }
}

/// Compiles an expression into an input.
#[verifier::rlimit(100)]
#[verifier::spinoff_prover]
fn compile_expr_input(expr: &Expr, ctx: &mut CompilerContext) -> (r: Result<Input, CompileError>)
    ensures
        data_same(*old(ctx), *final(ctx)),
        blocks_extend(old(ctx).blocks@, final(ctx).blocks@),
        r matches Ok(i) ==> input_new(i, old(ctx).blocks@.len() as int, final(ctx).blocks@),
        r matches Ok(i) ==> compiled_input(expr@, *old(ctx), *final(ctx), i),
        calls_ok(expr@, proc_keys(old(ctx).procedures@)) ==> r is Ok,
    decreases expr, 1nat,
{
    let ghost o = ctx.blocks@;
    match expr {
        Expr::Number(n) => Ok(prim(4, JsonValue::Num(NumLit { text: n.text.clone() }))),
        Expr::String(s) => Ok(prim(10, JsonValue::Str(s.clone()))),
        Expr::List(_) => Ok(empty_text()),
        Expr::Bool(b) => {
            let inputs = inputs2("OPERAND1", text_input("1"), "OPERAND2", text_input(if *b { "1" } else { "0" }));
            let ghost ins = inputs@;
            let ghost before = ctx.blocks@;
            let id = ctx.emit_block(lit("operator_equals"), None, inputs, Vec::new(), None);
            proof {
                lemma_emit_extend(o, before, ctx.blocks@, ins);
            }
            Ok(block_ref(&id))
        },
        Expr::Variable(name) => {
            match lookup_variable(ctx, name.as_str()) {
                Some((_, vid)) => {
                    let reference = JsonValue::Array(json_list3(JsonValue::Int(12), JsonValue::Str(name.clone()), JsonValue::Str(vid)));
                    let shadow = JsonValue::Array(json_list2(JsonValue::Int(10), empty_json_text()));
                    Ok(Input::Generic(json_list3(JsonValue::Int(3), reference, shadow)))
                },
                None => match lookup_arg_type(ctx, name.as_str()) {
                    Some(t) => {
                        let mut fields: Vec<(String, Field)> = Vec::new();
                        fields.push((lit("VALUE"), field2(JsonValue::Str(name.clone()), JsonValue::Null)));
                        let opcode = if t == Type::Boolean {
                            lit("argument_reporter_boolean")
                        } else {
                            lit("argument_reporter_string_number")
                        };
                        let ghost before = ctx.blocks@;
                        let id = ctx.emit_block(opcode, None, Vec::new(), fields, None);
                        proof {
                            lemma_emit_extend(o, before, ctx.blocks@, Seq::empty());
                        }
                        Ok(block_ref(&id))
                    },
                    None => Ok(empty_text()),
                },
            }
        },
        Expr::Call(name, args) => match {
            proof {
                lemma_exprs_view(args@);
            }
            map_call(name, args, ctx)
        } {
            Ok(cb) => {
                let ghost before = ctx.blocks@;
                let ghost ins = cb.inputs@;
                let id = ctx.emit_block(cb.opcode, None, cb.inputs, cb.fields, cb.mutation);
                proof {
                    lemma_emit_extend(o, before, ctx.blocks@, ins);
                }
                Ok(block_ref(&id))
            },
            Err(e) => Err(e),
        },
        Expr::ProcCall(name, args) => match {
            proof {
                lemma_exprs_view(args@);
            }
            map_call(name, args, ctx)
        } {
            Ok(cb) => {
                let ghost before = ctx.blocks@;
                let ghost ins = cb.inputs@;
                let id = ctx.emit_block(cb.opcode, None, cb.inputs, cb.fields, cb.mutation);
                proof {
                    lemma_emit_extend(o, before, ctx.blocks@, ins);
                }
                Ok(block_ref(&id))
            },
            Err(e) => Err(e),
        },
        Expr::BinOp(l, op, r) => {
            let ghost pre = *ctx;
            let is_bool = *op == Op::And || *op == Op::Or;
            let lhs = if is_bool { compile_bool_arg(l, ctx) } else { compile_expr_input(l, ctx) };
            let lhs = match lhs {
                Ok(x) => x,
                Err(e) => return Err(e),
            };
            let ghost a = *ctx;
            let rhs = if is_bool { compile_bool_arg(r, ctx) } else { compile_expr_input(r, ctx) };
            let rhs = match rhs {
                Ok(x) => x,
                Err(e) => return Err(e),
            };
            let ghost b = *ctx;
            let numeric = *op == Op::Add || *op == Op::Sub || *op == Op::Mul || *op == Op::Div || *op == Op::Mod;
            let inputs = if numeric {
                inputs2("NUM1", lhs, "NUM2", rhs)
            } else {
                inputs2("OPERAND1", lhs, "OPERAND2", rhs)
            };
            let ghost ins = inputs@;
            proof {
                lemma_extend_input_new(lhs, o.len() as int, a.blocks@, b.blocks@);
                assert(inputs_new(ins, o.len() as int, b.blocks@));
            }
            let id = ctx.emit_block(binop_opcode_of(*op), None, inputs, Vec::new(), None);
            let ghost c = *ctx;
            proof {
                lemma_emit_extend(o, b.blocks@, c.blocks@, ins);
            }
            assert(normal_at(c.blocks@, id@)->0.inputs@ == ins);
            let res = if *op == Op::Ne || *op == Op::Ge || *op == Op::Le {
                let inner = inputs1("OPERAND", block_ref(&id));
                let ghost ins2 = inner@;
                assert(inputs_new(ins2, o.len() as int, c.blocks@));
                let id2 = ctx.emit_block(lit("operator_not"), None, inner, Vec::new(), None);
                proof {
                    lemma_emit_extend(o, c.blocks@, ctx.blocks@, ins2);
                }
                block_ref(&id2)
            } else {
                block_ref(&id)
            };
            proof {
                assert(same_scope(a, pre));
                assert(normal_at(ctx.blocks@, id@) is Some);
                assert(normal_at(ctx.blocks@, id@)->0.inputs@ == ins);
                if is_bool {
                    lemma_bi_kept((**l)@, pre, pre, a, *ctx, lhs);
                    lemma_bi_kept((**r)@, a, pre, b, *ctx, rhs);
                } else {
                    lemma_ci_kept((**l)@, pre, pre, a, *ctx, lhs);
                    lemma_ci_kept((**r)@, a, pre, b, *ctx, rhs);
                }
            }
            Ok(res)
        },
        Expr::UnOp(op, x) => {
            let val = if *op == UnOp::Not { compile_bool_arg(x, ctx) } else { compile_expr_input(x, ctx) };
            let val = match val {
                Ok(v) => v,
                Err(e) => return Err(e),
            };
            let ghost before = ctx.blocks@;
            if *op == UnOp::Neg {
                let inputs = inputs2("NUM1", prim(4, JsonValue::Int(0)), "NUM2", val);
                let ghost ins = inputs@;
                let id = ctx.emit_block(lit("operator_subtract"), None, inputs, Vec::new(), None);
                proof {
                    lemma_emit_extend(o, before, ctx.blocks@, ins);
                }
                Ok(block_ref(&id))
            } else {
                let inputs = inputs1("OPERAND", val);
                let ghost ins = inputs@;
                let id = ctx.emit_block(lit("operator_not"), None, inputs, Vec::new(), None);
                proof {
                    lemma_emit_extend(o, before, ctx.blocks@, ins);
                }
                Ok(block_ref(&id))
            }
        },
    }
}

/// Compiles an operand of `and`, `or` or `not`.
fn compile_bool_arg(expr: &Expr, ctx: &mut CompilerContext) -> (r: Result<Input, CompileError>)
    ensures
        data_same(*old(ctx), *final(ctx)),
        blocks_extend(old(ctx).blocks@, final(ctx).blocks@),
        r matches Ok(i) ==> input_new(i, old(ctx).blocks@.len() as int, final(ctx).blocks@),
        r matches Ok(i) ==> bool_input(expr@, *old(ctx), *final(ctx), i),
        calls_ok(expr@, proc_keys(old(ctx).procedures@)) ==> r is Ok,
    decreases expr, 2nat,
{
    let literal = match expr {
        Expr::Number(_) => true,
        Expr::String(_) => true,
        _ => false,
    };
    if literal {
        let v = match compile_expr_input(expr, ctx) {
            Ok(v) => v,
            Err(e) => return Err(e),
        };
        let inputs = inputs2("STRING1", v, "STRING2", empty_text());
        let ghost ins = inputs@;
        let ghost before = ctx.blocks@;
        let id = ctx.emit_block(lit("operator_join"), None, inputs, Vec::new(), None);
        proof {
            lemma_emit_extend(old(ctx).blocks@, before, ctx.blocks@, ins);
        }
        Ok(block_ref(&id))
    } else {
        compile_expr_input(expr, ctx)
    }
}

/// Compiles a call of a known block: its data and constant fields, then its
/// inputs in order, with menu inputs for text arguments.
fn compile_builtin(b: Builtin, args: &Vec<Expr>, ctx: &mut CompilerContext) -> (r: Result<CallBlock, CompileError>)
    requires
        args@.len() >= builtin_arity(builtin_view(b)),
    ensures
        data_same(*old(ctx), *final(ctx)),
        blocks_extend(old(ctx).blocks@, final(ctx).blocks@),
        r matches Ok(cb) ==> inputs_new(cb.inputs@, old(ctx).blocks@.len() as int, final(ctx).blocks@),
        r matches Ok(cb) ==> {
            &&& cb.opcode@ == builtin_view(b).opcode
            &&& fields_view(cb.fields@) == builtin_fields(*old(ctx), builtin_view(b), exprs_view(args@))
            &&& slots_inputs_ok(builtin_view(b).slots, exprs_view(args@), cb.inputs@, *old(ctx), *final(ctx))
            &&& cb.mutation is None
        },
        calls_ok_all(exprs_view(args@), proc_keys(old(ctx).procedures@)) ==> r is Ok,
    decreases args, 0nat,
{
    let ghost bv = builtin_view(b);
    let ghost av = exprs_view(args@);
    proof {
        lemma_exprs_view(args@);
        lemma_slots_arity(bv.slots);
        if calls_ok_all(av, proc_keys(old(ctx).procedures@)) {
            lemma_calls_ok_all(av, proc_keys(old(ctx).procedures@));
        }
    }
    let mut fields: Vec<(String, Field)> = Vec::new();
    match b.target {
        TargetArg::List => match find_list_arg(&args[0], ctx) {
            Some((ln, lid)) => push_field(&mut fields, lit("LIST"), field2(JsonValue::Str(ln), JsonValue::Str(lid))),
            None => {},
        },
        TargetArg::Variable => match find_variable_arg(&args[0], ctx) {
            Some((vn, vid)) => push_field(&mut fields, lit("VARIABLE"), field2(JsonValue::Str(vn), JsonValue::Str(vid))),
            None => {},
        },
        TargetArg::NoTarget => {},
    }
    assert(fields_view(fields@) =~= target_fields(*ctx, bv, av));
    let ghost f1 = fields_view(fields@);
    match &b.text_field {
        Some((k, a)) => match &args[*a as usize] {
            Expr::String(t) => push_field(&mut fields, k.clone(), field2(JsonValue::Str(t.clone()), JsonValue::Null)),
            _ => {},
        },
        None => {},
    }
    let ghost f2 = fields_view(fields@);
    match &b.const_field {
        Some((k, v)) => push_field(&mut fields, k.clone(), field2(JsonValue::Str(v.clone()), JsonValue::Null)),
        None => {},
    }
    assert(fields_view(fields@) =~= builtin_fields(*old(ctx), bv, av));
    let mut inputs: Vec<(String, Input)> = Vec::new();
    let mut k: usize = 0;
    while k < b.slots.len()
        invariant
            k <= b.slots.len(),
            bv == builtin_view(b),
            av == exprs_view(args@),
            av.len() == args.len(),
            forall|q: int| 0 <= q < args.len() ==> #[trigger] av[q] == args@[q]@,
            args@.len() >= builtin_arity(bv),
            forall|q: int| 0 <= q < bv.slots.len() ==> (#[trigger] bv.slots[q]).arg + 1 <= slots_arity(bv.slots),
            data_same(*old(ctx), *ctx),
            blocks_extend(old(ctx).blocks@, ctx.blocks@),
            inputs_new(inputs@, old(ctx).blocks@.len() as int, ctx.blocks@),
            calls_ok_all(av, proc_keys(old(ctx).procedures@)) ==> forall|q: int| 0 <= q < av.len() ==> calls_ok(#[trigger] av[q], proc_keys(old(ctx).procedures@)),
            inputs@.len() == k,
            forall|q: int| 0 <= q < k ==> {
                &&& (#[trigger] inputs@[q]).0@ == bv.slots[q].key
                &&& slot_input_ok(bv.slots[q], av[bv.slots[q].arg as int], inputs@[q].1, *old(ctx), *ctx)
            },
        decreases b.slots.len() - k,
    {
        let slot = &b.slots[k];
        let ghost before = *ctx;
        assert(bv.slots[k as int] == slot_view(*slot));
        let a = slot.arg as usize;
        assert(a < args.len());
        assert(av[a as int] == args@[a as int]@);
        let inp = match &slot.menu {
            Some((mop, t)) => match &args[a] {
                Expr::String(val) => {
                    let mv = menu_value_of(*t, val);
                    let ghost mvv = mv@;
                    let mid = ctx.add_menu_block(mop.as_str(), slot.key.as_str(), mv);
                    assert(fields_view(normal_at(ctx.blocks@, mid@)->0.fields@) =~= seq![(slot.key@, plain_field(mvv))]);
                    Input::Generic(json_list2(JsonValue::Int(1), JsonValue::Str(mid)))
                },
                _ => match compile_expr_input(&args[a], ctx) {
                    Ok(i) => i,
                    Err(e) => return Err(e),
                },
            },
            None => match compile_expr_input(&args[a], ctx) {
                Ok(i) => i,
                Err(e) => return Err(e),
            },
        };
        proof {
            if !(slot.menu is Some && args@[a as int] is String) {
                lemma_ci_kept(av[a as int], before, *old(ctx), *ctx, *ctx, inp);
            }
            assert forall|q: int| 0 <= q < k implies slot_input_ok(bv.slots[q], av[bv.slots[q].arg as int], inputs@[q].1, *old(ctx), *ctx) by {
                if !(bv.slots[q].menu is Some && av[bv.slots[q].arg as int] is String) {
                    lemma_compiled_input_kept(av[bv.slots[q].arg as int], *old(ctx), before, *ctx, inputs@[q].1);
                } else {
                    let mid = input_view(inputs@[q].1)[1]->Str_0;
                    assert(normal_at(before.blocks@, mid) is Some);
                    assert(fields_view(normal_at(ctx.blocks@, mid)->0.fields@) == fields_view(normal_at(before.blocks@, mid)->0.fields@));
                }
            }
        }
        let ghost prev = inputs@;
        proof {
            lemma_inputs_new_extend(prev, old(ctx).blocks@.len() as int, before.blocks@, ctx.blocks@);
            assert(input_new(inp, old(ctx).blocks@.len() as int, ctx.blocks@));
        }
        inputs.push((slot.key.clone(), inp));
        assert forall|q: int| 0 <= q < k implies inputs@[q] == prev[q] by {}
        assert(inputs_new(inputs@, old(ctx).blocks@.len() as int, ctx.blocks@)) by {
            assert forall|q: int| 0 <= q < inputs@.len() implies input_new(#[trigger] inputs@[q].1, old(ctx).blocks@.len() as int, ctx.blocks@) by {
                if q < k {
                    assert(inputs@[q] == prev[q]);
                }
            }
        }
        k += 1;
    }
    Ok(CallBlock { opcode: b.opcode, inputs, fields, mutation: None })
}

/// Compiles `join`: with more than two arguments, the ones after the first
/// are joined right to left into nested `join` blocks.
fn compile_join(args: &Vec<Expr>, ctx: &mut CompilerContext) -> (r: Result<CallBlock, CompileError>)
    ensures
        data_same(*old(ctx), *final(ctx)),
        blocks_extend(old(ctx).blocks@, final(ctx).blocks@),
        r matches Ok(cb) ==> inputs_new(cb.inputs@, old(ctx).blocks@.len() as int, final(ctx).blocks@),
        r matches Ok(cb) ==> {
            let av = exprs_view(args@);
            &&& cb.opcode@ == "operator_join"@
            &&& kv_keys(cb.inputs@) == seq!["STRING1"@, "STRING2"@]
            &&& cb.fields@.len() == 0
            &&& cb.mutation is None
            &&& (av.len() == 0 ==> input_view(cb.inputs@[0].1) == empty_text_input())
            &&& (av.len() <= 1 ==> input_view(cb.inputs@[1].1) == empty_text_input())
            &&& (av.len() >= 1 ==> compiled_input(av[0], *old(ctx), *final(ctx), cb.inputs@[0].1))
            &&& (av.len() >= 2 ==> join_chain(av, 1, cb.inputs@[1].1, *old(ctx), *final(ctx)))
        },
        calls_ok_all(exprs_view(args@), proc_keys(old(ctx).procedures@)) ==> r is Ok,
    decreases args, 0nat,
{
    let ghost av = exprs_view(args@);
    proof {
        lemma_exprs_view(args@);
        if calls_ok_all(av, proc_keys(old(ctx).procedures@)) {
            lemma_calls_ok_all(av, proc_keys(old(ctx).procedures@));
        }
    }
    let n = args.len();
    let inputs = if n == 0 {
        let r = inputs2("STRING1", empty_text(), "STRING2", empty_text());
        assert(inputs_new(r@, old(ctx).blocks@.len() as int, ctx.blocks@));
        r
    } else if n == 1 {
        let first = match compile_expr_input(&args[0], ctx) {
            Ok(i) => i,
            Err(e) => return Err(e),
        };
        proof {
            lemma_ci_kept(av[0], *old(ctx), *old(ctx), *ctx, *ctx, first);
        }
        let r = inputs2("STRING1", first, "STRING2", empty_text());
        assert(inputs_new(r@, old(ctx).blocks@.len() as int, ctx.blocks@));
        r
    } else {
        let ghost c0 = *ctx;
        let mut rhs = match compile_expr_input(&args[n - 1], ctx) {
            Ok(i) => i,
            Err(e) => return Err(e),
        };
        proof {
            lemma_ci_kept(av[n - 1], c0, c0, *ctx, *ctx, rhs);
        }
        let mut i: usize = n - 1;
        assert(join_chain(av, i as int, rhs, *old(ctx), *ctx));
        while i > 1
            invariant
                1 <= i <= n - 1,
                n == args.len(),
                av == exprs_view(args@),
                av.len() == args.len(),
                forall|q: int| 0 <= q < args.len() ==> #[trigger] av[q] == args@[q]@,
                data_same(*old(ctx), *ctx),
                calls_ok_all(av, proc_keys(old(ctx).procedures@)) ==> forall|q: int| 0 <= q < av.len() ==> calls_ok(#[trigger] av[q], proc_keys(old(ctx).procedures@)),
                join_chain(av, i as int, rhs, *old(ctx), *ctx),
                blocks_extend(old(ctx).blocks@, ctx.blocks@),
                input_new(rhs, old(ctx).blocks@.len() as int, ctx.blocks@),
            decreases i,
        {
            i -= 1;
            assert(av[i as int] == args@[i as int]@);
            let ghost c2 = *ctx;
            let lhs = match compile_expr_input(&args[i], ctx) {
                Ok(x) => x,
                Err(e) => return Err(e),
            };
            let ghost c3 = *ctx;
            proof {
                lemma_extend_input_new(rhs, old(ctx).blocks@.len() as int, c2.blocks@, c3.blocks@);
            }
            let inner = inputs2("STRING1", lhs, "STRING2", rhs);
            let ghost ins = inner@;
            let ghost orhs = rhs;
            let id = ctx.emit_block(lit("operator_join"), None, inner, Vec::new(), None);
            proof {
                lemma_emit_extend(old(ctx).blocks@, c3.blocks@, ctx.blocks@, ins);
                lemma_join_chain_kept(av, i + 1, orhs, *old(ctx), c2, *ctx);
                lemma_ci_kept(av[i as int], c2, *old(ctx), c3, *ctx, lhs);
            }
            rhs = block_ref(&id);
            assert(normal_at(ctx.blocks@, id@)->0.inputs@ == ins);
            assert(join_chain(av, i as int, rhs, *old(ctx), *ctx));
        }
        assert(av[0] == args@[0]@);
        let ghost c1 = *ctx;
        let first = match compile_expr_input(&args[0], ctx) {
            Ok(x) => x,
            Err(e) => return Err(e),
        };
        proof {
            lemma_ci_kept(av[0], c1, *old(ctx), *ctx, *ctx, first);
            lemma_join_chain_kept(av, 1, rhs, *old(ctx), c1, *ctx);
            lemma_extend_input_new(rhs, old(ctx).blocks@.len() as int, c1.blocks@, ctx.blocks@);
        }
        let r = inputs2("STRING1", first, "STRING2", rhs);
        assert(inputs_new(r@, old(ctx).blocks@.len() as int, ctx.blocks@));
        r
    };
    Ok(CallBlock { opcode: lit("operator_join"), inputs, fields: Vec::new(), mutation: None })
}

/// Compiles a call of a procedure of the target: one input per parameter
/// the call gives, keyed by the parameter's id.
fn compile_proc_call(pi: usize, args: &Vec<Expr>, ctx: &mut CompilerContext) -> (r: Result<CallBlock, CompileError>)
    requires
        pi < old(ctx).procedures@.len(),
    ensures
        data_same(*old(ctx), *final(ctx)),
        blocks_extend(old(ctx).blocks@, final(ctx).blocks@),
        r matches Ok(cb) ==> inputs_new(cb.inputs@, old(ctx).blocks@.len() as int, final(ctx).blocks@),
        r matches Ok(cb) ==> {
            let info = old(ctx).procedures@[pi as int].1;
            let n = if args@.len() < info.arg_ids@.len() { args@.len() } else { info.arg_ids@.len() };
            &&& cb.opcode@ == "procedures_call"@
            &&& kv_keys(cb.inputs@) == strs_view(info.arg_ids@).subrange(0, n as int)
            &&& forall|k: int| 0 <= k < n ==> compiled_input(exprs_view(args@)[k], *old(ctx), *final(ctx), #[trigger] cb.inputs@[k].1)
            &&& cb.fields@.len() == 0
            &&& cb.mutation matches Some(m) && {
                &&& m.tag_name@ == "mutation"@
                &&& m.children matches Some(c) && c@.len() == 0
                &&& m.proccode matches Some(pc) && pc@ == info.proccode@
                &&& m.argumentids matches Some(ai) && ai@ == json_string_array(strs_view(info.arg_ids@))
                &&& m.argumentnames is None
                &&& m.argumentdefaults is None
                &&& m.warp matches Some(w) && w@ == bool_text(info.warp)
            }
        },
        calls_ok_all(exprs_view(args@), proc_keys(old(ctx).procedures@)) ==> r is Ok,
    decreases args, 0nat,
{
    let ghost av = exprs_view(args@);
    let ghost oinfo = old(ctx).procedures@[pi as int].1;
    proof {
        lemma_exprs_view(args@);
        if calls_ok_all(av, proc_keys(old(ctx).procedures@)) {
            lemma_calls_ok_all(av, proc_keys(old(ctx).procedures@));
        }
    }
    let info = ctx.procedures[pi].1.duplicate();
    let ghost ids = strs_view(info.arg_ids@);
    assert(ids.len() == info.arg_ids@.len());
    let mut inputs: Vec<(String, Input)> = Vec::new();
    let mut i: usize = 0;
    while i < args.len()
        invariant
            i <= args.len(),
            av == exprs_view(args@),
            av.len() == args.len(),
            forall|q: int| 0 <= q < args.len() ==> #[trigger] av[q] == args@[q]@,
            data_same(*old(ctx), *ctx),
            ids == strs_view(info.arg_ids@),
            ids.len() == info.arg_ids@.len(),
            calls_ok_all(av, proc_keys(old(ctx).procedures@)) ==> forall|q: int| 0 <= q < av.len() ==> calls_ok(#[trigger] av[q], proc_keys(old(ctx).procedures@)),
            inputs@.len() == if i < info.arg_ids@.len() { i as int } else { info.arg_ids@.len() as int },
            kv_keys(inputs@) == ids.subrange(0, inputs@.len() as int),
            forall|k: int| 0 <= k < inputs@.len() ==> compiled_input(av[k], *old(ctx), *ctx, #[trigger] inputs@[k].1),
            blocks_extend(old(ctx).blocks@, ctx.blocks@),
            inputs_new(inputs@, old(ctx).blocks@.len() as int, ctx.blocks@),
        decreases args.len() - i,
    {
        if i < info.arg_ids.len() {
            assert(av[i as int] == args@[i as int]@);
            let ghost c0 = *ctx;
            let v = match compile_expr_input(&args[i], ctx) {
                Ok(v) => v,
                Err(e) => return Err(e),
            };
            proof {
                lemma_ci_kept(av[i as int], c0, *old(ctx), *ctx, *ctx, v);
                assert forall|k: int| 0 <= k < inputs@.len() implies compiled_input(av[k], *old(ctx), *ctx, #[trigger] inputs@[k].1) by {
                    lemma_compiled_input_kept(av[k], *old(ctx), c0, *ctx, inputs@[k].1);
                }
                lemma_inputs_new_extend(inputs@, old(ctx).blocks@.len() as int, c0.blocks@, ctx.blocks@);
            }
            let ghost before = inputs@;
            inputs.push((info.arg_ids[i].clone(), v));
            assert(kv_keys(inputs@) =~= ids.subrange(0, inputs@.len() as int)) by {
                assert(ids[i as int] == info.arg_ids@[i as int]@);
                assert(kv_keys(before) == ids.subrange(0, before.len() as int));
                assert forall|q: int| 0 <= q < inputs@.len() implies #[trigger] kv_keys(inputs@)[q] == ids.subrange(0, inputs@.len() as int)[q] by {
                    if q < before.len() {
                        assert(inputs@[q] == before[q]);
                        assert(kv_keys(before)[q] == before[q].0@);
                    }
                }
            }
            assert(inputs_new(inputs@, old(ctx).blocks@.len() as int, ctx.blocks@)) by {
                assert forall|q: int| 0 <= q < inputs@.len() implies input_new(#[trigger] inputs@[q].1, old(ctx).blocks@.len() as int, ctx.blocks@) by {
                    if q < before.len() {
                        assert(inputs@[q] == before[q]);
                    }
                }
            }
            assert forall|k: int| 0 <= k < inputs@.len() implies compiled_input(av[k], *old(ctx), *ctx, #[trigger] inputs@[k].1) by {
                if k < before.len() {
                    assert(inputs@[k] == before[k]);
                }
            }
        }
        i += 1;
    }
    let mutation = Mutation {
        tag_name: lit("mutation"),
        children: Some(Vec::new()),
        proccode: Some(info.proccode.clone()),
        argumentids: Some(json_strings(&info.arg_ids)),
        argumentnames: None,
        argumentdefaults: None,
        warp: Some(bool_str(info.warp)),
    };
    Ok(CallBlock { opcode: lit("procedures_call"), inputs, fields: Vec::new(), mutation: Some(mutation) })
}

/// Maps a call to its block: a known block, `join`, or a procedure of the
/// target; any other name is refused.
fn map_call(name: &String, args: &Vec<Expr>, ctx: &mut CompilerContext) -> (r: Result<CallBlock, CompileError>)
    ensures
        data_same(*old(ctx), *final(ctx)),
        blocks_extend(old(ctx).blocks@, final(ctx).blocks@),
        r matches Ok(cb) ==> inputs_new(cb.inputs@, old(ctx).blocks@.len() as int, final(ctx).blocks@),
        r matches Ok(cb) ==> call_block_ok(*old(ctx), name@, exprs_view(args@), cb, *final(ctx)),
        !call_known(proc_keys(old(ctx).procedures@), name@, args@.len()) ==> r is Err,
        call_known(proc_keys(old(ctx).procedures@), name@, args@.len()) && calls_ok_all(exprs_view(args@), proc_keys(old(ctx).procedures@)) ==> r is Ok,
    decreases args, 1nat,
{
    proof {
        lemma_exprs_view(args@);
    }
    match builtin(name.as_str(), args.len()) {
        Some(b) => {
            let need = arity_of(&b);
            if args.len() < need {
                return Err(CompileError::TooFewArguments(name.clone(), need));
            }
            compile_builtin(b, args, ctx)
        },
        None => {
            if str_eq(name.as_str(), "join") {
                compile_join(args, ctx)
            } else {
                match kv_find(&ctx.procedures, name.as_str()) {
                    Some(pi) => compile_proc_call(pi, args, ctx),
                    None => Err(CompileError::UnknownBlock(name.clone())),
                }
            }
        },
    }
}

// ---------------------------------------------------------------------------
// Compiling statements
// ---------------------------------------------------------------------------

/// The opcode of the block a statement becomes, or `None` when it makes no
/// block (the statement is skipped, or is a comment, or assigns to a
/// variable that does not exist).
pub open spec fn stmt_opcode(s: StmtV, pre: CompilerContext) -> Option<Seq<char>> {
    match s {
        StmtV::Expr(e, _) => match e {
            ExprV::Call(n, args) => call_opcode(pre.procedures@, n, args.len()),
            ExprV::ProcCall(n, args) => call_opcode(pre.procedures@, n, args.len()),
            _ => None,
        },
        StmtV::If(_, _, oe, _) => Some(if oe is Some { "control_if_else"@ } else { "control_if"@ }),
        StmtV::Forever(_, _) => Some("control_forever"@),
        StmtV::Repeat(_, _, _) => Some("control_repeat"@),
        StmtV::Until(_, _, _) => Some("control_repeat_until"@),
        StmtV::Let(_, _, _) => Some("data_setvariableto"@),
        StmtV::Assign(n, v, _) => if var_ref(pre, n) is None {
            None
        } else if increment_of(n, v) is Some {
            Some("data_changevariableby"@)
        } else {
            Some("data_setvariableto"@)
        },
        StmtV::CBlock(n, args, _, _) => if n == "repeat_until"@ && args.len() >= 1 {
            Some("control_repeat_until"@)
        } else {
            None
        },
        _ => None,
    }
}

/// `x = x + e` (what `x += e` reads as) adds `e` to `x`.
pub open spec fn increment_of(name: Seq<char>, v: ExprV) -> Option<ExprV> {
    match v {
        ExprV::BinOp(l, op, r) => if op == Op::Add && *l == ExprV::Variable(name) {
            Some(*r)
        } else {
            None
        },
        _ => None,
    }
}

/// The opcode of the first block a statement list makes. The statements
/// before it make no block, and so declare no variable: each is read in
/// the context the list starts from.
pub open spec fn seq_opcode(s: Seq<StmtV>, pre: CompilerContext) -> Option<Seq<char>>
    decreases s.len(),
{
    if s.len() == 0 {
        None
    } else {
        match stmt_opcode(s[0], pre) {
            Some(op) => Some(op),
            None => seq_opcode(s.subrange(1, s.len() as int), pre),
        }
    }
}

proof fn lemma_seq_opcode(s: Seq<StmtV>, pre: CompilerContext, q0: int)
    requires
        0 <= q0 <= s.len(),
        forall|q: int| 0 <= q < q0 ==> stmt_opcode(#[trigger] s[q], pre) is None,
    ensures
        q0 == s.len() ==> seq_opcode(s, pre) is None,
        q0 < s.len() && stmt_opcode(s[q0], pre) is Some ==> seq_opcode(s, pre) == stmt_opcode(s[q0], pre),
    decreases q0,
{
    if q0 > 0 {
        let t = s.subrange(1, s.len() as int);
        assert forall|q: int| 0 <= q < q0 - 1 implies stmt_opcode(#[trigger] t[q], pre) is None by {
            assert(t[q] == s[q + 1]);
        }
        assert(stmt_opcode(s[0], pre) is None);
        lemma_seq_opcode(t, pre, q0 - 1);
        if q0 < s.len() {
            assert(t[q0 - 1] == s[q0]);
        }
    }
}

/// The input is `[2, t]` for a block `t` whose parent is `id`.
pub open spec fn points_below(blocks: Seq<(String, Block)>, i: Input, id: Seq<char>) -> bool {
    &&& input_child(i) is Some
    &&& input_view(i) == block_input(input_child(i)->0)
    &&& normal_at(blocks, input_child(i)->0) matches Some(tb) && tb.parent matches Some(p) && p@ == id
}

/// The `SUBSTACK` input at `k` and nothing after it, when `body` makes a
/// block: the first block of `body`, placed under `id`.
pub open spec fn substack_ok(
    inputs: Seq<(String, Input)>,
    k: int,
    body: Seq<StmtV>,
    pre: CompilerContext,
    post: CompilerContext,
    id: Seq<char>,
) -> bool {
    match seq_opcode(body, pre) {
        None => inputs.len() == k,
        Some(op) => {
            &&& inputs.len() == k + 1
            &&& inputs[k].0@ == "SUBSTACK"@
            &&& points_below(post.blocks@, inputs[k].1, id)
            &&& opcode_at(post.blocks@, input_child(inputs[k].1)->0) == Some(op)
        },
    }
}

/// The first input holds the condition or count `e`, under the name `key`.
pub open spec fn head_input_ok(
    inputs: Seq<(String, Input)>,
    key: Seq<char>,
    e: ExprV,
    pre: CompilerContext,
    post: CompilerContext,
) -> bool {
    &&& inputs.len() >= 1
    &&& inputs[0].0@ == key
    &&& compiled_input(e, pre, post, inputs[0].1)
}

/// What the block `b` (id `id`) that a statement makes holds, besides its
/// opcode: the inputs, fields and mutation of its call, or its condition or
/// count and the first blocks of its bodies, or the variable it sets and the
/// value.
pub open spec fn stmt_block_ok(s: StmtV, pre: CompilerContext, post: CompilerContext, id: Seq<char>, b: NormalBlock) -> bool {
    match s {
        StmtV::Expr(e, _) => match e {
            ExprV::Call(n, args) => call_block_ok(pre, n, args, CallBlock { opcode: b.opcode, inputs: b.inputs, fields: b.fields, mutation: b.mutation }, post),
            ExprV::ProcCall(n, args) => call_block_ok(pre, n, args, CallBlock { opcode: b.opcode, inputs: b.inputs, fields: b.fields, mutation: b.mutation }, post),
            _ => true,
        },
        StmtV::If(c, t, oe, _) => {
            let k = if seq_opcode(t, pre) is Some { 2int } else { 1int };
            &&& head_input_ok(b.inputs@, "CONDITION"@, c, pre, post)
            &&& substack_ok(b.inputs@.subrange(0, k), 1, t, pre, post, id)
            &&& oe is None ==> b.inputs@.len() == k
            &&& b.inputs@.len() == k || (b.inputs@.len() == k + 1 && b.inputs@[k].0@ == "SUBSTACK2"@
                && points_below(post.blocks@, b.inputs@[k].1, id))
            &&& match oe {
                Some(eb) => (eb.len() > 0 && always_makes(eb[0], proc_keys(pre.procedures@))) ==> {
                    &&& b.inputs@.len() == k + 1
                    &&& opcode_at(post.blocks@, input_child(b.inputs@[k].1)->0) == stmt_opcode(eb[0], pre)
                },
                None => true,
            }
            &&& b.fields@.len() == 0
            &&& b.mutation is None
        },
        StmtV::Forever(body, _) => {
            &&& substack_ok(b.inputs@, 0, body, pre, post, id)
            &&& b.fields@.len() == 0
            &&& b.mutation is None
        },
        StmtV::Repeat(n, body, _) => {
            &&& head_input_ok(b.inputs@, "TIMES"@, n, pre, post)
            &&& substack_ok(b.inputs@, 1, body, pre, post, id)
            &&& b.fields@.len() == 0
            &&& b.mutation is None
        },
        StmtV::Until(c, body, _) => {
            &&& head_input_ok(b.inputs@, "CONDITION"@, c, pre, post)
            &&& substack_ok(b.inputs@, 1, body, pre, post, id)
            &&& b.fields@.len() == 0
            &&& b.mutation is None
        },
        StmtV::CBlock(_, args, body, _) => {
            &&& head_input_ok(b.inputs@, "CONDITION"@, args[0], pre, post)
            &&& substack_ok(b.inputs@, 1, body, pre, post, id)
            &&& b.fields@.len() == 0
            &&& b.mutation is None
        },
        StmtV::Let(n, v, _) => {
            &&& b.inputs@.len() == 1
            &&& b.inputs@[0].0@ == "VALUE"@
            &&& fields_view(b.fields@).len() == 1
            &&& fields_view(b.fields@)[0].0 == "VARIABLE"@
            &&& fields_view(b.fields@)[0].1.len() == 2
            &&& fields_view(b.fields@)[0].1[0] == JsonV::Str(n)
            &&& fields_view(b.fields@)[0].1[1] matches JsonV::Str(vid) && exists|vs: String, ns: String|
                vs@ == vid && ns@ == n && post.variables@ == kv_set(pre.variables@, vs, (ns, JsonValue::Int(0)))
            &&& compiled_input(v, CompilerContext { variables: post.variables, ..pre }, post, b.inputs@[0].1)
            &&& b.mutation is None
        },
        StmtV::Assign(n, v, _) => {
            &&& b.inputs@.len() == 1
            &&& b.inputs@[0].0@ == "VALUE"@
            &&& compiled_input(
                match increment_of(n, v) {
                    Some(e) => e,
                    None => v,
                },
                pre,
                post,
                b.inputs@[0].1,
            )
            &&& fields_view(b.fields@) == seq![("VARIABLE"@, seq![JsonV::Str(n), JsonV::Str((var_ref(pre, n)->0).1)])]
            &&& b.mutation is None
        },
        _ => true,
    }
}

/// Every call anywhere in the statement can be compiled.
pub open spec fn stmt_calls_ok(s: StmtV, procs: Set<Seq<char>>) -> bool
    decreases s,
{
    match s {
        StmtV::Expr(e, _) => calls_ok(e, procs),
        StmtV::Let(_, e, _) => calls_ok(e, procs),
        StmtV::Assign(_, e, _) => calls_ok(e, procs),
        StmtV::Return(oe, _) => match oe {
            Some(e) => calls_ok(e, procs),
            None => true,
        },
        StmtV::If(c, t, oe, _) => calls_ok(c, procs) && stmts_calls_ok(t, procs) && match oe {
            Some(b) => stmts_calls_ok(b, procs),
            None => true,
        },
        StmtV::Repeat(n, b, _) => calls_ok(n, procs) && stmts_calls_ok(b, procs),
        StmtV::Forever(b, _) => stmts_calls_ok(b, procs),
        StmtV::Until(c, b, _) => calls_ok(c, procs) && stmts_calls_ok(b, procs),
        StmtV::Match(e, arms, d, _) => calls_ok(e, procs) && arms_calls_ok(arms, procs) && match d {
            Some(b) => stmts_calls_ok(b, procs),
            None => true,
        },
        StmtV::CBlock(_, args, b, _) => calls_ok_all(args, procs) && stmts_calls_ok(b, procs),
        StmtV::Comment(_) => true,
    }
}

pub open spec fn stmts_calls_ok(s: Seq<StmtV>, procs: Set<Seq<char>>) -> bool
    decreases s,
{
    if s.len() == 0 {
        true
    } else {
        stmts_calls_ok(s.subrange(0, s.len() - 1), procs) && stmt_calls_ok(s[s.len() - 1], procs)
    }
}

pub open spec fn arms_calls_ok(s: Seq<(ExprV, Seq<StmtV>)>, procs: Set<Seq<char>>) -> bool
    decreases s,
{
    if s.len() == 0 {
        true
    } else {
        arms_calls_ok(s.subrange(0, s.len() - 1), procs) && calls_ok(s[s.len() - 1].0, procs)
            && stmts_calls_ok(s[s.len() - 1].1, procs)
    }
}

proof fn lemma_stmts_calls_ok(s: Seq<StmtV>, procs: Set<Seq<char>>)
    requires
        stmts_calls_ok(s, procs),
    ensures
        forall|i: int| 0 <= i < s.len() ==> stmt_calls_ok(#[trigger] s[i], procs),
    decreases s.len(),
{
    if s.len() > 0 {
        let init = s.subrange(0, s.len() - 1);
        lemma_stmts_calls_ok(init, procs);
        assert forall|i: int| 0 <= i < s.len() implies stmt_calls_ok(#[trigger] s[i], procs) by {
            if i < s.len() - 1 {
                assert(init[i] == s[i]);
            }
        }
    }
}

/// What compiling statements keeps: everything but the blocks, comments,
/// broadcasts and variables (a `let` declares one).
pub open spec fn ctx_frame(a: CompilerContext, b: CompilerContext) -> bool {
    &&& b.lists == a.lists
    &&& b.costumes == a.costumes
    &&& b.sounds == a.sounds
    &&& b.global_variables == a.global_variables
    &&& b.global_lists == a.global_lists
    &&& b.asset_instructions == a.asset_instructions
    &&& b.procedures == a.procedures
    &&& b.current_proc_args == a.current_proc_args
    &&& blocks_kept(a.blocks@, b.blocks@)
    &&& prefix_of(a.variables@, b.variables@)
}

proof fn lemma_update_keeps_opcode(
    blocks: Seq<(String, Block)>,
    c: Seq<char>,
    f: spec_fn(NormalBlock) -> NormalBlock,
    id: Seq<char>,
)
    requires
        forall|b: NormalBlock| (#[trigger] f(b)).opcode == b.opcode,
    ensures
        opcode_at(block_update(blocks, c, f), id) == opcode_at(blocks, id),
{
    lemma_block_update_other(blocks, c, f, id);
}

/// The two contexts agree on every name a statement can refer to.
pub open spec fn same_names(a: CompilerContext, b: CompilerContext) -> bool {
    &&& a.variables == b.variables
    &&& a.global_variables == b.global_variables
    &&& a.procedures == b.procedures
}

proof fn lemma_seq_opcode_same(s: Seq<StmtV>, a: CompilerContext, b: CompilerContext)
    requires
        same_names(a, b),
    ensures
        seq_opcode(s, a) == seq_opcode(s, b),
    decreases s.len(),
{
    if s.len() > 0 {
        assert(stmt_opcode(s[0], a) == stmt_opcode(s[0], b));
        lemma_seq_opcode_same(s.subrange(1, s.len() as int), a, b);
    }
}

/// The two contexts agree on everything an expression's input is read in.
pub open spec fn same_scope(a: CompilerContext, b: CompilerContext) -> bool {
    &&& a.variables == b.variables
    &&& a.global_variables == b.global_variables
    &&& a.procedures == b.procedures
    &&& a.current_proc_args == b.current_proc_args
}

proof fn lemma_points_kept(a: Seq<(String, Block)>, b: Seq<(String, Block)>, i: Input, op: Seq<char>)
    requires
        points_to(a, i, op),
        blocks_kept(a, b),
    ensures
        points_to(b, i, op),
        normal_at(b, input_child(i)->0) is Some,
        same_content(normal_at(a, input_child(i)->0)->0, normal_at(b, input_child(i)->0)->0),
{
    let c = input_child(i)->0;
    assert(normal_at(a, c) is Some);
}

proof fn lemma_ci_kept(e: ExprV, p1: CompilerContext, p2: CompilerContext, a: CompilerContext, b: CompilerContext, i: Input)
    requires
        compiled_input(e, p1, a, i),
        same_scope(p1, p2),
        blocks_kept(a.blocks@, b.blocks@),
    ensures
        compiled_input(e, p2, b, i),
    decreases e, 0nat,
{
    match e {
        ExprV::Number(_) => {},
        ExprV::String(_) => {},
        ExprV::List(_) => {},
        ExprV::Bool(_) => { lemma_points_kept(a.blocks@, b.blocks@, i, "operator_equals"@); },
        ExprV::Variable(n) => {
            assert(var_ref(p1, n) == var_ref(p2, n));
            assert(arg_type(p1, n) == arg_type(p2, n));
            if var_ref(p1, n) is None {
                match arg_type(p1, n) {
                    Some(t) => { lemma_points_kept(a.blocks@, b.blocks@, i, reporter_opcode(t)); },
                    None => {},
                }
            }
        },
        ExprV::Call(n, args) => { lemma_points_kept(a.blocks@, b.blocks@, i, call_opcode(p1.procedures@, n, args.len())->0); },
        ExprV::ProcCall(n, args) => { lemma_points_kept(a.blocks@, b.blocks@, i, call_opcode(p1.procedures@, n, args.len())->0); },
        ExprV::BinOp(l, op, r) => {
            lemma_points_kept(a.blocks@, b.blocks@, i, if binop_negated(op) { "operator_not"@ } else { binop_opcode(op) });
            let top = normal_at(a.blocks@, input_child(i)->0)->0;
            if binop_negated(op) {
                lemma_points_kept(a.blocks@, b.blocks@, top.inputs@[0].1, binop_opcode(op));
            }
            let inner = if binop_negated(op) {
                normal_at(a.blocks@, input_child(top.inputs@[0].1)->0)->0
            } else {
                top
            };
            if op == Op::And || op == Op::Or {
                lemma_bi_kept(*l, p1, p2, a, b, inner.inputs@[0].1);
                lemma_bi_kept(*r, p1, p2, a, b, inner.inputs@[1].1);
            } else {
                lemma_ci_kept(*l, p1, p2, a, b, inner.inputs@[0].1);
                lemma_ci_kept(*r, p1, p2, a, b, inner.inputs@[1].1);
            }
        },
        ExprV::UnOp(op, _) => {
            lemma_points_kept(a.blocks@, b.blocks@, i, if op == UnOp::Not { "operator_not"@ } else { "operator_subtract"@ });
        },
    }
}

proof fn lemma_bi_kept(e: ExprV, p1: CompilerContext, p2: CompilerContext, a: CompilerContext, b: CompilerContext, i: Input)
    requires
        bool_input(e, p1, a, i),
        same_scope(p1, p2),
        blocks_kept(a.blocks@, b.blocks@),
    ensures
        bool_input(e, p2, b, i),
    decreases e, 1nat,
{
    if e is Number || e is String {
        lemma_points_kept(a.blocks@, b.blocks@, i, "operator_join"@);
    } else {
        lemma_ci_kept(e, p1, p2, a, b, i);
    }
}

proof fn lemma_compiled_input_kept(e: ExprV, pre: CompilerContext, a: CompilerContext, b: CompilerContext, i: Input)
    requires
        compiled_input(e, pre, a, i),
        blocks_kept(a.blocks@, b.blocks@),
    ensures
        compiled_input(e, pre, b, i),
{
    lemma_ci_kept(e, pre, pre, a, b, i);
}

proof fn lemma_call_block_kept(pre: CompilerContext, name: Seq<char>, args: Seq<ExprV>, cb: CallBlock, a: CompilerContext, b: CompilerContext)
    requires
        call_block_ok(pre, name, args, cb, a),
        blocks_kept(a.blocks@, b.blocks@),
    ensures
        call_block_ok(pre, name, args, cb, b),
{
    match builtin_spec(name, args.len()) {
        Some(bs) => {
            assert forall|k: int| 0 <= k < bs.slots.len() implies slot_input_ok(bs.slots[k], args[bs.slots[k].arg as int], (#[trigger] cb.inputs@[k]).1, pre, b) by {
                assert(slot_input_ok(bs.slots[k], args[bs.slots[k].arg as int], cb.inputs@[k].1, pre, a));
                if !(bs.slots[k].menu is Some && args[bs.slots[k].arg as int] is String) {
                    lemma_compiled_input_kept(args[bs.slots[k].arg as int], pre, a, b, cb.inputs@[k].1);
                } else {
                    let mid = input_view(cb.inputs@[k].1)[1]->Str_0;
                    assert(normal_at(a.blocks@, mid) is Some);
                    assert(fields_view(normal_at(b.blocks@, mid)->0.fields@) == fields_view(normal_at(a.blocks@, mid)->0.fields@));
                }
            }
        },
        None => if name == "join"@ {
            if args.len() >= 1 {
                lemma_compiled_input_kept(args[0], pre, a, b, cb.inputs@[0].1);
            }
            if args.len() >= 2 {
                lemma_join_chain_kept(args, 1, cb.inputs@[1].1, pre, a, b);
            }
        } else {
            let info = kv_get(pre.procedures@, name)->0;
            let n = if args.len() < info.arg_ids@.len() { args.len() } else { info.arg_ids@.len() };
            assert forall|k: int| 0 <= k < n implies compiled_input(args[k], pre, b, #[trigger] cb.inputs@[k].1) by {
                lemma_compiled_input_kept(args[k], pre, a, b, cb.inputs@[k].1);
            }
        },
    }
}

proof fn lemma_children_has(inputs: Seq<(String, Input)>, k: int)
    requires
        0 <= k < inputs.len(),
        input_child(inputs[k].1) is Some,
    ensures
        children(inputs).contains(input_child(inputs[k].1)->0),
    decreases inputs.len(),
{
    let init = inputs.subrange(0, inputs.len() - 1);
    if k < inputs.len() - 1 {
        assert(init[k] == inputs[k]);
        lemma_children_has(init, k);
        let r = children(init);
        let j = choose|j: int| 0 <= j < r.len() && r[j] == input_child(inputs[k].1)->0;
        assert(children(inputs)[j] == r[j]);
    } else {
        let r = children(init);
        assert(children(inputs)[r.len() as int] == input_child(inputs[k].1)->0);
    }
}

/// `b` is `a` but for its comment.
pub open spec fn but_comment(a: NormalBlock, b: NormalBlock) -> bool {
    b == NormalBlock { comment: b.comment, ..a }
}

/// `b` with `id` as its next block.
pub open spec fn with_next(b: NormalBlock, id: String) -> NormalBlock {
    NormalBlock { next: Some(id), ..b }
}

/// `blocks` with the block `pid`, if given, leading to `id`.
pub open spec fn link_after(blocks: Seq<(String, Block)>, pid: Option<String>, id: String) -> Seq<(String, Block)> {
    match pid {
        Some(p) => block_update(blocks, p@, |b: NormalBlock| with_next(b, id)),
        None => blocks,
    }
}

proof fn lemma_update_same(
    o: Seq<(String, Block)>,
    m: Seq<(String, Block)>,
    c: Seq<char>,
    f: spec_fn(NormalBlock) -> NormalBlock,
    id: Seq<char>,
)
    requires
        o.len() == m.len(),
        forall|j: int| 0 <= j < o.len() ==> #[trigger] m[j].0 == o[j].0,
        forall|j: int| 0 <= j < o.len() && o[j].0@ != id ==> #[trigger] m[j] == o[j],
        c != id,
    ensures
        block_update(m, c, f).len() == o.len(),
        forall|j: int| 0 <= j < o.len() && o[j].0@ != id ==> #[trigger] block_update(m, c, f)[j] == block_update(o, c, f)[j],
{
    assert forall|j: int| 0 <= j < o.len() implies #[trigger] o[j].0@ == m[j].0@ by {}
    lemma_kv_index_keys(o, m, c);
    lemma_kv_index(o, c);
}

/// The link from `pid` reads the same on a list that only grew.
proof fn lemma_link_after_extend(o: Seq<(String, Block)>, e: Seq<(String, Block)>, pid: Option<String>, id: String)
    requires
        blocks_extend(o, e),
        pid matches Some(p) ==> kv_index(o, p@) >= 0,
    ensures
        link_after(e, pid, id).len() == e.len(),
        link_after(o, pid, id).len() == o.len(),
        forall|j: int| 0 <= j < o.len() ==> #[trigger] link_after(e, pid, id)[j] == link_after(o, pid, id)[j],
{
    match pid {
        Some(p) => {
            lemma_extend_index(o, e, p@);
            lemma_kv_index(o, p@);
            let x = kv_index(o, p@);
            assert(e[x] == o[x]);
        },
        None => {},
    }
}

/// After a statement's block `id` is made: its comment, and the link from
/// the previous block. Only these two blocks change, and only there.
fn finish_block(ctx: &mut CompilerContext, id: &String, comment: &Option<String>, parent_id: Option<String>)
    requires
        parent_id matches Some(p) ==> p@ != id@,
        normal_at(old(ctx).blocks@, id@) is Some,
    ensures
        data_same(*old(ctx), *final(ctx)),
        final(ctx).broadcast_map == old(ctx).broadcast_map,
        comment is None ==> final(ctx).comments == old(ctx).comments,
        comment matches Some(c) ==> exists|cid: String|
            final(ctx).comments@ == kv_set(old(ctx).comments@, cid, comment_of(Some(*id), *c, 0, 0)),
        forall|k: Seq<char>| #[trigger] opcode_at(final(ctx).blocks@, k) == opcode_at(old(ctx).blocks@, k),
        normal_at(final(ctx).blocks@, id@) matches Some(b) && but_comment(normal_at(old(ctx).blocks@, id@)->0, b),
        parent_id matches Some(pid) ==> (normal_at(old(ctx).blocks@, pid@) matches Some(pb) ==> normal_at(
            final(ctx).blocks@,
            pid@,
        ) == Some(with_next(pb, *id))),
        forall|k: Seq<char>|
            k != id@ && !(parent_id matches Some(pid) && pid@ == k) ==> #[trigger] normal_at(final(ctx).blocks@, k)
                == normal_at(old(ctx).blocks@, k),
        final(ctx).blocks@.len() == old(ctx).blocks@.len(),
        forall|j: int|
            0 <= j < old(ctx).blocks@.len() && old(ctx).blocks@[j].0@ != id@ ==> #[trigger] final(ctx).blocks@[j]
                == link_after(old(ctx).blocks@, parent_id, *id)[j],
{
    let ghost ob = normal_at(old(ctx).blocks@, id@)->0;
    match comment {
        Some(c) => {
            ctx.add_comment(Some(id.clone()), c.clone(), 0, 0);
            proof {
                let cid = choose|cid: String| ctx.comments@ == kv_set(old(ctx).comments@, cid, comment_of(Some(*id), *c, 0, 0))
                    && ctx.blocks@ == block_update(old(ctx).blocks@, id@, |b: NormalBlock| NormalBlock { comment: Some(cid), ..b });
                assert forall|k: Seq<char>| #[trigger] opcode_at(ctx.blocks@, k) == opcode_at(old(ctx).blocks@, k) by {
                    lemma_update_keeps_opcode(old(ctx).blocks@, id@, |b: NormalBlock| NormalBlock { comment: Some(cid), ..b }, k);
                }
                assert forall|k: Seq<char>| k != id@ implies #[trigger] normal_at(ctx.blocks@, k) == normal_at(old(ctx).blocks@, k) by {
                    lemma_block_update_other(old(ctx).blocks@, id@, |b: NormalBlock| NormalBlock { comment: Some(cid), ..b }, k);
                }
                lemma_block_update_other(old(ctx).blocks@, id@, |b: NormalBlock| NormalBlock { comment: Some(cid), ..b }, id@);
                lemma_update_at(old(ctx).blocks@, id@, |b: NormalBlock| NormalBlock { comment: Some(cid), ..b });
            }
        },
        None => {},
    }
    let ghost mid = ctx.blocks@;
    assert(mid.len() == old(ctx).blocks@.len());
    assert(forall|j: int| 0 <= j < mid.len() ==> #[trigger] mid[j].0 == old(ctx).blocks@[j].0);
    assert(forall|j: int| 0 <= j < mid.len() && old(ctx).blocks@[j].0@ != id@ ==> #[trigger] mid[j] == old(ctx).blocks@[j]);
    assert(normal_at(mid, id@) matches Some(b) && but_comment(ob, b));
    match parent_id {
        Some(pid) => {
            ctx.set_next(pid.as_str(), Some(id.clone()));
            assert forall|k: Seq<char>| #[trigger] opcode_at(ctx.blocks@, k) == opcode_at(mid, k) by {
                lemma_update_keeps_opcode(mid, pid@, |b: NormalBlock| NormalBlock { next: Some(*id), ..b }, k);
            }
            assert forall|k: Seq<char>| k != pid@ implies #[trigger] normal_at(ctx.blocks@, k) == normal_at(mid, k) by {
                lemma_block_update_other(mid, pid@, |b: NormalBlock| NormalBlock { next: Some(*id), ..b }, k);
            }
            proof {
                lemma_block_update_other(mid, pid@, |b: NormalBlock| NormalBlock { next: Some(*id), ..b }, pid@);
                lemma_update_same(old(ctx).blocks@, mid, pid@, |b: NormalBlock| NormalBlock { next: Some(*id), ..b }, id@);
                assert(forall|b: NormalBlock| #[trigger] with_next(b, *id) == NormalBlock { next: Some(*id), ..b });
                assert(link_after(old(ctx).blocks@, parent_id, *id) == block_update(old(ctx).blocks@, pid@, |b: NormalBlock| NormalBlock { next: Some(*id), ..b }));
            }
        },
        None => {},
    }
}

fn substack_inputs(
    first: Vec<(String, Input)>,
    sub1: &Option<String>,
    sub2: &Option<String>,
) -> (r: Vec<(String, Input)>)
    ensures
        r@.len() == first@.len() + (if sub1 is Some { 1int } else { 0int }) + (if sub2 is Some { 1int } else { 0int }),
        r@.subrange(0, first@.len() as int) == first@,
        sub1 matches Some(s1) ==> r@[first@.len() as int].0@ == "SUBSTACK"@ && input_view(
            r@[first@.len() as int].1,
        ) == block_input(s1@),
        sub2 matches Some(s2) ==> r@[r@.len() - 1].0@ == "SUBSTACK2"@ && input_view(r@[r@.len() - 1].1)
            == block_input(s2@),
{
    let ghost f0 = first@;
    let mut inputs = first;
    match sub1 {
        Some(sid) => inputs.push((lit("SUBSTACK"), block_ref(sid))),
        None => {},
    }
    assert(inputs@.subrange(0, f0.len() as int) =~= f0);
    match sub2 {
        Some(sid) => inputs.push((lit("SUBSTACK2"), block_ref(sid))),
        None => {},
    }
    assert(inputs@.subrange(0, f0.len() as int) =~= f0);
    inputs
}

/// The blocks `made` form one stack, in order: each sits under the one
/// before it and leads to the one after it; the first has no parent and the
/// last no next block; all were added at or after position `l`.
pub open spec fn stack_ok(blocks: Seq<(String, Block)>, made: Seq<String>, l: int) -> bool {
    stack_under(blocks, made, l, None)
}

/// A block that no entry of `o` names sits after them.
proof fn lemma_index_after(o: Seq<(String, Block)>, f: Seq<(String, Block)>, k: Seq<char>)
    requires
        o.len() <= f.len(),
        forall|j: int| 0 <= j < o.len() ==> #[trigger] f[j].0@ == o[j].0@,
        kv_index(o, k) < 0,
        kv_index(f, k) >= 0,
    ensures
        kv_index(f, k) >= o.len(),
{
    lemma_kv_index(o, k);
    lemma_kv_index(f, k);
    let x = kv_index(f, k);
    if x < o.len() {
        assert(f[x].0@ == o[x].0@);
    }
}

/// Adding the block `id` after the last block of a stack extends the stack.
proof fn lemma_stack_push(b: Seq<(String, Block)>, f: Seq<(String, Block)>, made: Seq<String>, l: int, id: String)
    requires
        0 <= l,
        stack_ok(b, made, l),
        blocks_extend(link_after(b, if made.len() == 0 { None } else { Some(made.last()) }, id), f),
        kv_index(b, id@) < 0,
        normal_at(f, id@) matches Some(nb) && nb.parent == (if made.len() == 0 { None } else { Some(made.last()) })
            && nb.next is None,
        l <= b.len(),
    ensures
        stack_ok(f, made.push(id), l),
{
    let pid: Option<String> = if made.len() == 0 { None } else { Some(made.last()) };
    let lk = link_after(b, pid, id);
    let m2 = made.push(id);
    match pid {
        Some(p) => {
            lemma_update_at(b, p@, |x: NormalBlock| with_next(x, id));
        },
        None => {},
    }
    assert(lk.len() == b.len());
    assert forall|j: int| 0 <= j < b.len() implies #[trigger] f[j].0@ == b[j].0@ by {
        assert(f[j] == lk[j]);
    }
    assert forall|j: int| 0 <= j < m2.len() implies {
        &&& kv_index(f, (#[trigger] m2[j])@) >= l
        &&& normal_at(f, m2[j]@) matches Some(x) && {
            &&& x.parent == (if j == 0 { None } else { Some(m2[j - 1]) })
            &&& x.next == (if j + 1 < m2.len() { Some(m2[j + 1]) } else { None })
        }
    } by {
        if j < made.len() {
            assert(m2[j] == made[j]);
            let k = made[j]@;
            assert(kv_index(b, k) >= l);
            assert forall|q: int| 0 <= q < b.len() implies #[trigger] lk[q].0@ == b[q].0@ by {}
            lemma_kv_index_keys(lk, b, k);
            lemma_extend_index(lk, f, k);
            match pid {
                Some(p) => {
                    lemma_block_update_other(b, p@, |x: NormalBlock| with_next(x, id), k);
                },
                None => {},
            }
        } else {
            assert(m2[j] == id);
            lemma_index_after(b, f, id@);
        }
    }
}

/// A statement's block made from new inputs and linked after `pid`
/// changes nothing else among the blocks that were there before.
proof fn lemma_stmt_frame(
    o: Seq<(String, Block)>,
    w: Seq<(String, Block)>,
    e: Seq<(String, Block)>,
    f: Seq<(String, Block)>,
    ins: Seq<(String, Input)>,
    pid: Option<String>,
    id: String,
)
    requires
        blocks_extend(o, w),
        inputs_new(ins, o.len() as int, w),
        w.len() <= e.len(),
        forall|j: int| 0 <= j < w.len() && !children(ins).contains(w[j].0@) ==> #[trigger] e[j] == w[j],
        kv_index(o, id@) < 0,
        pid matches Some(p) ==> kv_index(o, p@) >= 0,
        f.len() == e.len(),
        forall|j: int| 0 <= j < e.len() && e[j].0@ != id@ ==> #[trigger] f[j] == link_after(e, pid, id)[j],
    ensures
        blocks_extend(link_after(o, pid, id), f),
{
    lemma_emit_extend(o, w, e, ins);
    lemma_link_after_extend(o, e, pid, id);
    lemma_kv_index(o, id@);
    assert forall|j: int| 0 <= j < o.len() implies #[trigger] f[j] == link_after(o, pid, id)[j] by {
        assert(e[j] == o[j]);
        assert(o[j].0@ != id@);
    }
}

/// The blocks `made` form one stack under `top`: the first sits under
/// `top`, each other under the one before it, each leads to the one after
/// it and the last to nothing; all were added at or after position `l`.
pub open spec fn stack_under(blocks: Seq<(String, Block)>, made: Seq<String>, l: int, top: Option<String>) -> bool {
    forall|j: int|
        0 <= j < made.len() ==> {
            &&& kv_index(blocks, (#[trigger] made[j])@) >= l
            &&& normal_at(blocks, made[j]@) matches Some(b) && {
                &&& b.parent == (if j == 0 { top } else { Some(made[j - 1]) })
                &&& b.next == (if j + 1 < made.len() { Some(made[j + 1]) } else { None })
            }
        }
}

/// Placing the first block of a stack under `h`.
proof fn lemma_stack_lift(b: Seq<(String, Block)>, made: Seq<String>, l: int, h: String)
    requires
        stack_ok(b, made, l),
        made.len() > 0,
    ensures
        stack_under(
            block_update(b, made[0]@, |x: NormalBlock| NormalBlock { parent: Some(h), ..x }),
            made,
            l,
            Some(h),
        ),
{
    let f = block_update(b, made[0]@, |x: NormalBlock| NormalBlock { parent: Some(h), ..x });
    assert forall|j: int| 0 <= j < made.len() implies {
        &&& kv_index(f, (#[trigger] made[j])@) >= l
        &&& normal_at(f, made[j]@) matches Some(x) && {
            &&& x.parent == (if j == 0 { Some(h) } else { Some(made[j - 1]) })
            &&& x.next == (if j + 1 < made.len() { Some(made[j + 1]) } else { None })
        }
    } by {
        lemma_block_update_other(b, made[0]@, |x: NormalBlock| NormalBlock { parent: Some(h), ..x }, made[j]@);
        if j > 0 && made[j]@ == made[0]@ {
            assert(normal_at(b, made[j]@) == normal_at(b, made[0]@));
        }
    }
}

/// A stack stays a stack where its blocks are left as they were.
proof fn lemma_stack_under_kept(b: Seq<(String, Block)>, f: Seq<(String, Block)>, made: Seq<String>, l: int, top: Option<String>)
    requires
        stack_under(b, made, l, top),
        forall|j: int| 0 <= j < made.len() ==> normal_at(f, (#[trigger] made[j])@) == normal_at(b, made[j]@) && kv_index(f, made[j]@) == kv_index(b, made[j]@),
    ensures
        stack_under(f, made, l, top),
{
}

/// One more statement's block at the end of a stack being built.
proof fn lemma_seq_step(
    o: Seq<(String, Block)>,
    b: Seq<(String, Block)>,
    f: Seq<(String, Block)>,
    made: Seq<String>,
    id: String,
)
    requires
        blocks_extend(o, b),
        stack_ok(b, made, o.len() as int),
        blocks_extend(link_after(b, if made.len() == 0 { None } else { Some(made.last()) }, id), f),
        kv_index(b, id@) < 0,
        normal_at(f, id@) matches Some(nb) && nb.parent == (if made.len() == 0 { None } else { Some(made.last()) })
            && nb.next is None,
    ensures
        blocks_extend(o, f),
        stack_ok(f, made.push(id), o.len() as int),
{
    let pid: Option<String> = if made.len() == 0 { None } else { Some(made.last()) };
    lemma_stack_push(b, f, made, o.len() as int, id);
    let lk = link_after(b, pid, id);
    match pid {
        Some(p) => {
            lemma_update_at(b, p@, |x: NormalBlock| with_next(x, id));
            assert(kv_index(b, made[made.len() - 1]@) >= o.len());
        },
        None => {},
    }
    assert(lk.len() == b.len());
    assert forall|j: int| 0 <= j < o.len() implies #[trigger] f[j] == o[j] by {
        assert(f[j] == lk[j]);
        assert(b[j] == o[j]);
        match pid {
            Some(p) => {
                lemma_kv_index_at(b, j);
            },
            None => {},
        }
    }
}

/// What the block `id` that a statement made looks like: new, of the
/// statement's opcode, after `parent_id` and last in its stack, with the
/// statement's inputs and fields; the block before it now leads to it.
pub open spec fn stmt_made(
    s: StmtV,
    pre: CompilerContext,
    post: CompilerContext,
    parent_id: Option<String>,
    id: String,
    op: Seq<char>,
) -> bool {
    &&& kv_index(pre.blocks@, id@) < 0
    &&& normal_at(post.blocks@, id@) matches Some(b) && {
        &&& b.opcode@ == op
        &&& b.parent == parent_id
        &&& b.next is None
        &&& !b.top_level
        &&& !b.shadow
        &&& stmt_block_ok(s, pre, post, id@, b)
    }
    &&& parent_id matches Some(pid) ==> (normal_at(post.blocks@, pid@) matches Some(pb) && pb.next == Some(id))
    &&& blocks_extend(link_after(pre.blocks@, parent_id, id), post.blocks@)
}

/// Compiles one statement after the block `parent_id`; returns the id of
/// the block it made, or `parent_id` when it made none. A statement that
/// makes no block changes nothing but, for a comment, the comments.
fn compile_stmt(stmt: &Stmt, parent_id: Option<String>, ctx: &mut CompilerContext) -> (r: Result<Option<String>, CompileError>)
    requires
        parent_id matches Some(p) ==> normal_at(old(ctx).blocks@, p@) is Some,
    ensures
        ctx_frame(*old(ctx), *final(ctx)),
        r matches Ok(res) ==> match stmt_opcode(stmt@, *old(ctx)) {
            Some(op) => res matches Some(id) && stmt_made(stmt@, *old(ctx), *final(ctx), parent_id, id, op),
            None => {
                &&& res == parent_id
                &&& final(ctx).blocks@ == old(ctx).blocks@
                &&& final(ctx).variables == old(ctx).variables
                &&& !(stmt@ is Comment) ==> *final(ctx) == *old(ctx)
            },
        },
        stmt_calls_ok(stmt@, proc_keys(old(ctx).procedures@)) ==> r is Ok,
        stmt_opcode(stmt@, *old(ctx)) is None && !(stmt@ matches StmtV::Expr(e, _) && (e is Call || e is ProcCall)) ==> r is Ok,
    decreases stmt, 1nat,
{
    match stmt {
        Stmt::Expr(e, comment) => {
            let call = match e {
                Expr::Call(name, args) => Some((name, args)),
                Expr::ProcCall(name, args) => Some((name, args)),
                _ => None,
            };
            match call {
                Some((name, args)) => {
                    proof {
                        lemma_exprs_view(args@);
                    }
                    let cb = match map_call(name, args, ctx) {
                        Ok(cb) => cb,
                        Err(err) => return Err(err),
                    };
                    let ghost c1 = *ctx;
                    let ghost cbv = CallBlock { opcode: cb.opcode, inputs: cb.inputs, fields: cb.fields, mutation: cb.mutation };
                    let ghost pid0 = parent_id;
                    let id = ctx.emit_block(cb.opcode, parent_id.clone(), cb.inputs, cb.fields, cb.mutation);
                    let ghost e1 = ctx.blocks@;
                    finish_block(ctx, &id, comment, parent_id);
                    proof {
                        lemma_call_block_kept(*old(ctx), name@, exprs_view(args@), cbv, c1, *ctx);
                        lemma_stmt_frame(old(ctx).blocks@, c1.blocks@, e1, ctx.blocks@, cbv.inputs@, pid0, id);
                    }
                    Ok(Some(id))
                },
                None => Ok(parent_id),
            }
        },
        Stmt::If(_, _, _, _) => compile_if(stmt, parent_id, ctx),
        Stmt::Forever(_, _) => compile_loop(stmt, parent_id, ctx),
        Stmt::Repeat(_, _, _) => compile_loop(stmt, parent_id, ctx),
        Stmt::Until(_, _, _) => compile_until(stmt, parent_id, ctx),
        Stmt::CBlock(name, args, _, _) => {
            if str_eq(name.as_str(), "repeat_until") && args.len() >= 1 {
                proof {
                    reveal_strlit("repeat_until");
                }
                compile_until(stmt, parent_id, ctx)
            } else {
                proof {
                    reveal_strlit("repeat_until");
                    lemma_exprs_view(args@);
                }
                Ok(parent_id)
            }
        },
        Stmt::Let(_, _, _) => compile_set(stmt, parent_id, ctx),
        Stmt::Assign(_, _, _) => compile_set(stmt, parent_id, ctx),
        Stmt::Comment(text) => {
            ctx.add_comment(None, text.clone(), 0, 0);
            Ok(parent_id)
        },
        _ => Ok(parent_id),
    }
}

/// Compiles an `if`, with or without `else`.
#[verifier::rlimit(100)]
#[verifier::spinoff_prover]
fn compile_if(stmt: &Stmt, parent_id: Option<String>, ctx: &mut CompilerContext) -> (r: Result<Option<String>, CompileError>)
    requires
        stmt is If,
        parent_id matches Some(p) ==> normal_at(old(ctx).blocks@, p@) is Some,
    ensures
        ctx_frame(*old(ctx), *final(ctx)),
        r matches Ok(res) ==> res matches Some(id) && stmt_made(stmt@, *old(ctx), *final(ctx), parent_id, id, stmt_opcode(stmt@, *old(ctx))->0),
        stmt_calls_ok(stmt@, proc_keys(old(ctx).procedures@)) ==> r is Ok,
    decreases stmt, 0nat,
{
    let ghost pre = *ctx;
    match stmt {
        Stmt::If(cond, then_block, else_block, comment) => {
            let cond_input = match compile_expr_input(cond, ctx) {
                Ok(i) => i,
                Err(err) => return Err(err),
            };
            let ghost c1 = *ctx;
            let sub1 = match compile_sequence(then_block, ctx) {
                Ok(x) => x,
                Err(err) => return Err(err),
            };
            let ghost c2 = *ctx;
            let sub2 = match else_block {
                Some(b) => match compile_sequence(b, ctx) {
                    Ok(x) => x,
                    Err(err) => return Err(err),
                },
                None => None,
            };
            let mut first: Vec<(String, Input)> = Vec::new();
            first.push((lit("CONDITION"), cond_input));
            let ghost f0 = first@;
            let inputs = substack_inputs(first, &sub1, &sub2);
            assert(inputs@[0] == inputs@.subrange(0, 1)[0]);
            assert(inputs@[0] == f0[0]);
            let opcode = if else_block.is_some() { lit("control_if_else") } else { lit("control_if") };
            let ghost ins = inputs@;
            let ghost w0 = ctx.blocks@;
            let ghost pid0 = parent_id;
            proof {
                let l = pre.blocks@.len() as int;
                assert forall|q: int| 0 <= q < ins.len() implies input_new(#[trigger] ins[q].1, l, w0) by {
                    if q == 0 {
                        lemma_extend_input_new(cond_input, l, c1.blocks@, w0);
                    } else if sub1 is Some && q == 1 {
                        lemma_extend_index(c2.blocks@, w0, sub1->0@);
                    } else {
                        assert(sub2 is Some);
                    }
                }
            }
            let id = ctx.emit_block(opcode, parent_id.clone(), inputs, Vec::new(), None);
            let ghost e = *ctx;
            finish_block(ctx, &id, comment, parent_id);
            proof {
                lemma_stmt_frame(pre.blocks@, w0, e.blocks@, ctx.blocks@, ins, pid0, id);
                lemma_seq_opcode_same(stmts_view(then_block@), pre, c1);
                lemma_compiled_input_kept(cond@, pre, c1, *ctx, cond_input);
                let k = if sub1 is Some { 2int } else { 1int };
                match sub1 {
                    Some(t) => {
                        lemma_children_has(ins, 1);
                        assert(normal_at(ctx.blocks@, t@) == normal_at(e.blocks@, t@));
                    },
                    None => {},
                }
                match sub2 {
                    Some(t2) => {
                        lemma_children_has(ins, ins.len() - 1);
                        assert(normal_at(ctx.blocks@, t2@) == normal_at(e.blocks@, t2@));
                    },
                    None => {},
                }
                match else_block {
                    Some(eb) => {
                        let ev = stmts_view(eb@);
                        if ev.len() > 0 && always_makes(ev[0], proc_keys(pre.procedures@)) {
                            assert(stmt_opcode(ev[0], c2) == stmt_opcode(ev[0], pre));
                            assert(stmt_opcode(ev[0], pre) is Some);
                            assert(seq_opcode(ev, c2) == stmt_opcode(ev[0], c2));
                        }
                    },
                    None => {},
                }
            }
            Ok(Some(id))
        },
        _ => Ok(parent_id),
    }
}

/// Compiles `forever` and `repeat`.
#[verifier::rlimit(100)]
#[verifier::spinoff_prover]
fn compile_loop(stmt: &Stmt, parent_id: Option<String>, ctx: &mut CompilerContext) -> (r: Result<Option<String>, CompileError>)
    requires
        stmt is Forever || stmt is Repeat,
        parent_id matches Some(p) ==> normal_at(old(ctx).blocks@, p@) is Some,
    ensures
        ctx_frame(*old(ctx), *final(ctx)),
        r matches Ok(res) ==> res matches Some(id) && stmt_made(stmt@, *old(ctx), *final(ctx), parent_id, id, stmt_opcode(stmt@, *old(ctx))->0),
        stmt_calls_ok(stmt@, proc_keys(old(ctx).procedures@)) ==> r is Ok,
    decreases stmt, 0nat,
{
    let ghost pre = *ctx;
    match stmt {
        Stmt::Forever(body, comment) => {
            let sub1 = match compile_sequence(body, ctx) {
                Ok(x) => x,
                Err(err) => return Err(err),
            };
            let inputs = substack_inputs(Vec::new(), &sub1, &None);
            let ghost ins = inputs@;
            let ghost w0 = ctx.blocks@;
            let ghost pid0 = parent_id;
            assert(inputs_new(ins, pre.blocks@.len() as int, w0));
            let id = ctx.emit_block(lit("control_forever"), parent_id.clone(), inputs, Vec::new(), None);
            let ghost e = *ctx;
            finish_block(ctx, &id, comment, parent_id);
            proof {
                lemma_stmt_frame(pre.blocks@, w0, e.blocks@, ctx.blocks@, ins, pid0, id);
                match sub1 {
                    Some(t) => {
                        lemma_children_has(ins, 0);
                        assert(normal_at(ctx.blocks@, t@) == normal_at(e.blocks@, t@));
                    },
                    None => {},
                }
            }
            Ok(Some(id))
        },
        Stmt::Repeat(count, body, comment) => {
            let count_input = match compile_expr_input(count, ctx) {
                Ok(i) => i,
                Err(err) => return Err(err),
            };
            let ghost c1 = *ctx;
            let sub1 = match compile_sequence(body, ctx) {
                Ok(x) => x,
                Err(err) => return Err(err),
            };
            let mut first: Vec<(String, Input)> = Vec::new();
            first.push((lit("TIMES"), count_input));
            let ghost f0 = first@;
            let inputs = substack_inputs(first, &sub1, &None);
            let ghost ins = inputs@;
            assert(ins[0] == ins.subrange(0, 1)[0]);
            assert(ins[0] == f0[0]);
            let ghost w0 = ctx.blocks@;
            let ghost pid0 = parent_id;
            proof {
                let l = pre.blocks@.len() as int;
                assert forall|q: int| 0 <= q < ins.len() implies input_new(#[trigger] ins[q].1, l, w0) by {
                    if q == 0 {
                        lemma_extend_input_new(count_input, l, c1.blocks@, w0);
                    }
                }
            }
            let id = ctx.emit_block(lit("control_repeat"), parent_id.clone(), inputs, Vec::new(), None);
            let ghost e = *ctx;
            finish_block(ctx, &id, comment, parent_id);
            proof {
                lemma_stmt_frame(pre.blocks@, w0, e.blocks@, ctx.blocks@, ins, pid0, id);
                lemma_seq_opcode_same(stmts_view(body@), pre, c1);
                lemma_compiled_input_kept(count@, pre, c1, *ctx, count_input);
                match sub1 {
                    Some(t) => {
                        lemma_children_has(ins, 1);
                        assert(normal_at(ctx.blocks@, t@) == normal_at(e.blocks@, t@));
                    },
                    None => {},
                }
            }
            Ok(Some(id))
        },
        _ => Ok(parent_id),
    }
}

/// Compiles a loop that runs its body until its condition holds: `until`,
/// and the block call `repeat_until(cond) { .. }`.
#[verifier::rlimit(100)]
#[verifier::spinoff_prover]
fn compile_until(stmt: &Stmt, parent_id: Option<String>, ctx: &mut CompilerContext) -> (r: Result<Option<String>, CompileError>)
    requires
        stmt is Until || (stmt matches Stmt::CBlock(n, args, _, _) && n@ == "repeat_until"@ && args.len() >= 1),
        parent_id matches Some(p) ==> normal_at(old(ctx).blocks@, p@) is Some,
    ensures
        ctx_frame(*old(ctx), *final(ctx)),
        r matches Ok(res) ==> res matches Some(id) && stmt_made(stmt@, *old(ctx), *final(ctx), parent_id, id, "control_repeat_until"@),
        stmt_calls_ok(stmt@, proc_keys(old(ctx).procedures@)) ==> r is Ok,
    decreases stmt, 0nat,
{
    let ghost pre = *ctx;
    let (cond, body, comment) = match stmt {
        Stmt::Until(c, b, m) => (c, b, m),
        Stmt::CBlock(_, args, b, m) => {
            proof {
                lemma_exprs_view(args@);
                if stmt_calls_ok(stmt@, proc_keys(old(ctx).procedures@)) {
                    lemma_calls_ok_all(exprs_view(args@), proc_keys(old(ctx).procedures@));
                    assert(calls_ok(exprs_view(args@)[0], proc_keys(old(ctx).procedures@)));
                    assert(exprs_view(args@)[0] == args@[0]@);
                }
            }
            (&args[0], b, m)
        },
        _ => return Ok(parent_id),
    };
    let cond_input = match compile_expr_input(cond, ctx) {
        Ok(i) => i,
        Err(err) => return Err(err),
    };
    let ghost c1 = *ctx;
    let sub1 = match compile_sequence(body, ctx) {
        Ok(x) => x,
        Err(err) => return Err(err),
    };
    let mut first: Vec<(String, Input)> = Vec::new();
    first.push((lit("CONDITION"), cond_input));
    let ghost f0 = first@;
    let inputs = substack_inputs(first, &sub1, &None);
    let ghost ins = inputs@;
    assert(ins[0] == ins.subrange(0, 1)[0]);
    assert(ins[0] == f0[0]);
    let ghost w0 = ctx.blocks@;
    let ghost pid0 = parent_id;
    proof {
        let l = pre.blocks@.len() as int;
        assert forall|q: int| 0 <= q < ins.len() implies input_new(#[trigger] ins[q].1, l, w0) by {
            if q == 0 {
                lemma_extend_input_new(cond_input, l, c1.blocks@, w0);
            }
        }
    }
    let id = ctx.emit_block(lit("control_repeat_until"), parent_id.clone(), inputs, Vec::new(), None);
    let ghost e = *ctx;
    finish_block(ctx, &id, comment, parent_id);
    proof {
        lemma_stmt_frame(pre.blocks@, w0, e.blocks@, ctx.blocks@, ins, pid0, id);
        lemma_seq_opcode_same(stmts_view(body@), pre, c1);
        lemma_compiled_input_kept(cond@, pre, c1, *ctx, cond_input);
        match sub1 {
            Some(t) => {
                lemma_children_has(ins, 1);
                assert(normal_at(ctx.blocks@, t@) == normal_at(e.blocks@, t@));
            },
            None => {},
        }
    }
    Ok(Some(id))
}

/// Compiles `let` and assignments: `x = x + e` changes `x` by `e`, any
/// other assignment to a known variable sets it, and one to an unknown
/// name makes nothing.
#[verifier::rlimit(100)]
#[verifier::spinoff_prover]
fn compile_set(stmt: &Stmt, parent_id: Option<String>, ctx: &mut CompilerContext) -> (r: Result<Option<String>, CompileError>)
    requires
        stmt is Let || stmt is Assign,
        parent_id matches Some(p) ==> normal_at(old(ctx).blocks@, p@) is Some,
    ensures
        ctx_frame(*old(ctx), *final(ctx)),
        r matches Ok(res) ==> match stmt_opcode(stmt@, *old(ctx)) {
            Some(op) => res matches Some(id) && stmt_made(stmt@, *old(ctx), *final(ctx), parent_id, id, op),
            None => res == parent_id && *final(ctx) == *old(ctx),
        },
        stmt_opcode(stmt@, *old(ctx)) is None ==> r is Ok,
        stmt_calls_ok(stmt@, proc_keys(old(ctx).procedures@)) ==> r is Ok,
{
    let ghost pre = *ctx;
    match stmt {
        Stmt::Let(name, init, comment) => {
            let var_id = ctx.add_variable(name.clone(), JsonValue::Int(0));
            let ghost c1 = *ctx;
            let val_input = match compile_expr_input(init, ctx) {
                Ok(i) => i,
                Err(err) => return Err(err),
            };
            let ghost c2 = *ctx;
            let mut inputs: Vec<(String, Input)> = Vec::new();
            inputs.push((lit("VALUE"), val_input));
            let mut fields: Vec<(String, Field)> = Vec::new();
            push_field(&mut fields, lit("VARIABLE"), field2(JsonValue::Str(name.clone()), JsonValue::Str(var_id)));
            let ghost ins = inputs@;
            let ghost w0 = ctx.blocks@;
            let ghost pid0 = parent_id;
            assert(inputs_new(ins, pre.blocks@.len() as int, w0));
            let id = ctx.emit_block(lit("data_setvariableto"), parent_id.clone(), inputs, fields, None);
            let ghost e1 = ctx.blocks@;
            finish_block(ctx, &id, comment, parent_id);
            proof {
                lemma_stmt_frame(pre.blocks@, w0, e1, ctx.blocks@, ins, pid0, id);
                assert(c1 == CompilerContext { variables: ctx.variables, ..pre });
                lemma_compiled_input_kept(init@, c1, c2, *ctx, val_input);
            }
            Ok(Some(id))
        },
        Stmt::Assign(name, val, comment) => {
            match lookup_variable(ctx, name.as_str()) {
                Some((_, vid)) => {
                    let amount: Option<&Expr> = match val {
                        Expr::BinOp(l, op, r) => {
                            let same = match &**l {
                                Expr::Variable(v) => str_eq(v.as_str(), name.as_str()),
                                _ => false,
                            };
                            assert(same == ((**l)@ == ExprV::Variable(name@)));
                            assert(val@ == ExprV::BinOp(Box::new((**l)@), *op, Box::new((**r)@)));
                            if *op == Op::Add && same {
                                Some(&**r)
                            } else {
                                None
                            }
                        },
                        _ => None,
                    };
                    let value: &Expr = match amount {
                        Some(x) => x,
                        None => val,
                    };
                    assert(value@ == match increment_of(name@, val@) {
                        Some(x) => x,
                        None => val@,
                    });
                    let val_input = match compile_expr_input(value, ctx) {
                        Ok(i) => i,
                        Err(err) => return Err(err),
                    };
                    let mut inputs: Vec<(String, Input)> = Vec::new();
                    inputs.push((lit("VALUE"), val_input));
                    let mut fields: Vec<(String, Field)> = Vec::new();
                    push_field(&mut fields, lit("VARIABLE"), field2(JsonValue::Str(name.clone()), JsonValue::Str(vid)));
                    assert(fields_view(fields@) =~= seq![("VARIABLE"@, seq![JsonV::Str(name@), JsonV::Str((var_ref(pre, name@)->0).1)])]);
                    let opcode = if amount.is_some() { lit("data_changevariableby") } else { lit("data_setvariableto") };
                    let ghost c1 = *ctx;
                    let ghost ins = inputs@;
                    let ghost pid0 = parent_id;
                    assert(inputs_new(ins, pre.blocks@.len() as int, c1.blocks@));
                    let id = ctx.emit_block(opcode, parent_id.clone(), inputs, fields, None);
                    let ghost e1 = ctx.blocks@;
                    finish_block(ctx, &id, comment, parent_id);
                    proof {
                        lemma_stmt_frame(pre.blocks@, c1.blocks@, e1, ctx.blocks@, ins, pid0, id);
                        lemma_compiled_input_kept(value@, pre, c1, *ctx, val_input);
                    }
                    Ok(Some(id))
                },
                None => Ok(parent_id),
            }
        },
        _ => Ok(parent_id),
    }
}

/// Compiles a statement list as one stack; returns the id of its first
/// block, if it made any.
#[verifier::rlimit(100)]
#[verifier::spinoff_prover]
fn compile_sequence(stmts: &Vec<Stmt>, ctx: &mut CompilerContext) -> (r: Result<Option<String>, CompileError>)
    ensures
        ctx_frame(*old(ctx), *final(ctx)),
        r matches Ok(f) ==> match seq_opcode(stmts_view(stmts@), *old(ctx)) {
            None => f is None,
            Some(op) => f matches Some(fid) && kv_index(old(ctx).blocks@, fid@) < 0 && opcode_at(
                final(ctx).blocks@,
                fid@,
            ) == Some(op),
        },
        r is Ok ==> blocks_extend(old(ctx).blocks@, final(ctx).blocks@),
        r matches Ok(Some(x)) ==> kv_index(final(ctx).blocks@, x@) >= old(ctx).blocks@.len(),
        r matches Ok(f) ==> exists|made: Seq<String>|
            {
                &&& stack_ok(final(ctx).blocks@, made, old(ctx).blocks@.len() as int)
                &&& (made.len() == 0 <==> f is None)
                &&& (f matches Some(x) ==> made[0] == x)
            },
        stmts_calls_ok(stmts_view(stmts@), proc_keys(old(ctx).procedures@)) ==> r is Ok,
    decreases stmts, 0nat,
{
    let ghost sv = stmts_view(stmts@);
    let ghost pre = *ctx;
    proof {
        lemma_stmts_view(stmts@);
        if stmts_calls_ok(sv, proc_keys(old(ctx).procedures@)) {
            lemma_stmts_calls_ok(sv, proc_keys(old(ctx).procedures@));
        }
    }
    if stmts.len() == 0 {
        proof {
            lemma_seq_opcode(sv, pre, 0);
            assert(stack_ok(ctx.blocks@, Seq::<String>::empty(), ctx.blocks@.len() as int));
        }
        return Ok(None);
    }
    let ghost mut made: Seq<String> = Seq::empty();
    let mut prev: Option<String> = None;
    let mut first: Option<String> = None;
    let mut i: usize = 0;
    while i < stmts.len()
        invariant
            i <= stmts.len(),
            sv == stmts_view(stmts@),
            sv.len() == stmts.len(),
            pre == *old(ctx),
            forall|q: int| 0 <= q < stmts.len() ==> #[trigger] sv[q] == stmts@[q]@,
            ctx_frame(*old(ctx), *ctx),
            stmts_calls_ok(sv, proc_keys(old(ctx).procedures@)) ==> forall|q: int| 0 <= q < sv.len() ==> stmt_calls_ok(#[trigger] sv[q], proc_keys(old(ctx).procedures@)),
            prev matches Some(p) ==> normal_at(ctx.blocks@, p@) is Some,
            first is None ==> {
                &&& prev is None
                &&& ctx.variables == pre.variables
                &&& forall|q: int| 0 <= q < i ==> stmt_opcode(#[trigger] sv[q], pre) is None
            },
            first matches Some(f) ==> {
                &&& kv_index(pre.blocks@, f@) < 0
                &&& seq_opcode(sv, pre) matches Some(op) && opcode_at(ctx.blocks@, f@) == Some(op)
            },
            blocks_extend(pre.blocks@, ctx.blocks@),
            stack_ok(ctx.blocks@, made, pre.blocks@.len() as int),
            prev == (if made.len() == 0 { None } else { Some(made.last()) }),
            made.len() == 0 <==> first is None,
            first matches Some(x) ==> made[0] == x,
        decreases stmts.len() - i,
    {
        assert(sv[i as int] == stmts@[i as int]@);
        let ghost before = *ctx;
        proof {
            if first is None {
                assert(same_names(pre, before));
                assert(stmt_opcode(sv[i as int], pre) == stmt_opcode(sv[i as int], before));
            }
        }
        let new_id = match compile_stmt(&stmts[i], prev.clone(), ctx) {
            Ok(x) => x,
            Err(err) => return Err(err),
        };
        proof {
            if first is None && new_id is Some {
                lemma_seq_opcode(sv, pre, i as int);
            }
            match &new_id {
                Some(id) if stmt_opcode(sv[i as int], before) is Some => {
                    let id = *id;
                    lemma_seq_step(pre.blocks@, before.blocks@, ctx.blocks@, made, id);
                    made = made.push(id);
                },
                _ => {},
            }
        }
        if first.is_none() && new_id.is_some() {
            first = new_id.clone();
        }
        if new_id.is_some() {
            prev = new_id;
        }
        i += 1;
    }
    proof {
        if first is None {
            lemma_seq_opcode(sv, pre, sv.len() as int);
        }
    }
    assert(stack_ok(ctx.blocks@, made, pre.blocks@.len() as int));
    Ok(first)
}

// ---------------------------------------------------------------------------
// Procedures and event handlers
// ---------------------------------------------------------------------------

/// What compiling a procedure or handler keeps.
pub open spec fn def_frame(a: CompilerContext, b: CompilerContext) -> bool {
    &&& b.lists == a.lists
    &&& b.costumes == a.costumes
    &&& b.sounds == a.sounds
    &&& b.global_variables == a.global_variables
    &&& b.global_lists == a.global_lists
    &&& b.asset_instructions == a.asset_instructions
    &&& b.procedures == a.procedures
    &&& prefix_of(a.variables@, b.variables@)
}

/// The recorded parameters of a procedure's name fit the procedure.
pub open spec fn info_fits(procs: Seq<(String, ProcedureInfo)>, p: ProcedureDef) -> bool {
    kv_get(procs, p.name@) matches Some(info) ==> {
        &&& info.arg_names@.len() <= p.params@.len()
        &&& info.arg_names@.len() <= info.arg_ids@.len()
    }
}

fn empty_strings(n: usize) -> (r: Vec<String>)
    ensures
        r@.len() == n,
        forall|i: int| 0 <= i < n ==> (#[trigger] r@[i])@ == Seq::<char>::empty(),
{
    let mut v: Vec<String> = Vec::new();
    let mut i: usize = 0;
    while i < n
        invariant
            i <= n,
            v@.len() == i,
            forall|j: int| 0 <= j < i ==> (#[trigger] v@[j])@ == Seq::<char>::empty(),
        decreases n - i,
    {
        v.push(String::new());
        i += 1;
    }
    v
}

fn reporter_of(t: Type) -> (r: String)
    ensures
        r@ == reporter_opcode(t),
{
    if t == Type::Boolean {
        lit("argument_reporter_boolean")
    } else {
        lit("argument_reporter_string_number")
    }
}

/// The prototype `pb` of a procedure recorded as `info`, under the
/// definition `d`: a shadow block whose mutation carries the procedure's
/// text, argument ids and names, and whether it runs without refresh.
pub open spec fn prototype_ok(pb: NormalBlock, info: ProcedureInfo, d: String) -> bool {
    &&& pb.opcode@ == "procedures_prototype"@
    &&& pb.inputs@.len() == info.arg_names@.len()
    &&& forall|k: int|
        0 <= k < info.arg_names@.len() ==> {
            &&& (#[trigger] pb.inputs@[k]).0@ == info.arg_ids@[k]@
            &&& input_view(pb.inputs@[k].1) == seq![JsonV::Int(1), JsonV::Str(info.arg_ids@[k]@)]
        }
    &&& pb.shadow
    &&& pb.parent == Some(d)
    &&& pb.mutation matches Some(m) && {
        &&& m.proccode matches Some(pc) && pc@ == info.proccode@
        &&& m.argumentids matches Some(ai) && ai@ == json_string_array(strs_view(info.arg_ids@))
        &&& m.argumentnames matches Some(an) && an@ == json_string_array(strs_view(info.arg_names@))
        &&& m.warp matches Some(w) && w@ == bool_text(info.warp)
    }
}

/// The definition block `d` of procedure `p`: on top of its script, its
/// `custom_block` input `[1, prototype]`, leading to the first block of the
/// body, which sits under it.
pub open spec fn definition_made(p: ProcedureDef, pre: CompilerContext, post: CompilerContext, d: String) -> bool {
    &&& normal_at(post.blocks@, d@) matches Some(db) && {
        &&& db.opcode@ == "procedures_definition"@
        &&& db.top_level
        &&& db.parent is None
        &&& !db.shadow
        &&& db.inputs@.len() == 1
        &&& db.inputs@[0].0@ == "custom_block"@
        &&& input_view(db.inputs@[0].1).len() == 2
        &&& input_view(db.inputs@[0].1)[0] == JsonV::Int(1)
        &&& input_view(db.inputs@[0].1)[1] matches JsonV::Str(pid) && normal_at(post.blocks@, pid) matches Some(pb)
            && prototype_ok(pb, kv_get(pre.procedures@, p.name@)->0, d)
        &&& match seq_opcode(stmts_view(p.body@), pre) {
            None => db.next is None,
            Some(op) => db.next matches Some(n) && opcode_at(post.blocks@, n@) == Some(op) && normal_at(
                post.blocks@,
                n@,
            )->0.parent == Some(d),
        }
        &&& exists|made: Seq<String>|
            {
                &&& stack_under(post.blocks@, made, pre.blocks@.len() as int, Some(d))
                &&& db.next == (if made.len() == 0 { None } else { Some(made[0]) })
            }
    }
}

/// Compiles a procedure: its prototype with one argument reporter per
/// parameter, its body with the parameters in scope, and its definition
/// hat. A procedure the context does not know yields `None`.
#[verifier::rlimit(100)]
#[verifier::spinoff_prover]
fn compile_procedure(p: &ProcedureDef, ctx: &mut CompilerContext) -> (r: Result<Option<String>, CompileError>)
    ensures
        def_frame(*old(ctx), *final(ctx)),
        r matches Ok(res) ==> (res is Some <==> kv_index(old(ctx).procedures@, p.name@) >= 0),
        r matches Ok(Some(d)) ==> definition_made(*p, *old(ctx), *final(ctx), d),
        r is Ok ==> blocks_extend(old(ctx).blocks@, final(ctx).blocks@),
        r matches Ok(Some(_)) ==> final(ctx).current_proc_args is None,
        r matches Ok(None) ==> final(ctx).current_proc_args == old(ctx).current_proc_args,
        info_fits(old(ctx).procedures@, *p) && stmts_calls_ok(stmts_view(p.body@), proc_keys(old(ctx).procedures@)) ==> r is Ok,
{
    let pi = match kv_find(&ctx.procedures, p.name.as_str()) {
        Some(i) => i,
        None => return Ok(None),
    };
    let info = ctx.procedures[pi].1.duplicate();
    assert(info.arg_names@.len() == strs_view(info.arg_names@).len());
    assert(info.arg_ids@.len() == strs_view(info.arg_ids@).len());
    assert(ctx.procedures@[pi as int].1.arg_names@.len() == strs_view(ctx.procedures@[pi as int].1.arg_names@).len());
    assert(ctx.procedures@[pi as int].1.arg_ids@.len() == strs_view(ctx.procedures@[pi as int].1.arg_ids@).len());
    let n = info.arg_names.len();
    if n > p.params.len() || n > info.arg_ids.len() {
        return Err(CompileError::ParameterMismatch(p.name.clone()));
    }
    let prototype_id = ctx.fresh_block_id();
    let mut inputs: Vec<(String, Input)> = Vec::new();
    let mut i: usize = 0;
    while i < n
        invariant
            i <= n,
            blocks_extend(old(ctx).blocks@, ctx.blocks@),
            kv_index(ctx.blocks@, prototype_id@) < 0,
            n == info.arg_names@.len(),
            n <= p.params@.len(),
            n <= info.arg_ids@.len(),
            def_frame(*old(ctx), *ctx),
            ctx.comments == old(ctx).comments,
            ctx.variables == old(ctx).variables,
            inputs@.len() == i,
            forall|k: int|
                0 <= k < i ==> {
                    &&& (#[trigger] inputs@[k]).0@ == info.arg_ids@[k]@
                    &&& input_view(inputs@[k].1) == seq![JsonV::Int(1), JsonV::Str(info.arg_ids@[k]@)]
                },
            ctx.current_proc_args == old(ctx).current_proc_args,
        decreases n - i,
    {
        let arg_id = info.arg_ids[i].clone();
        let mut fields: Vec<(String, Field)> = Vec::new();
        fields.push((lit("VALUE"), field2(JsonValue::Str(info.arg_names[i].clone()), JsonValue::Null)));
        let block = NormalBlock {
            opcode: reporter_of(p.params[i].ty),
            next: None,
            parent: Some(prototype_id.clone()),
            inputs: Vec::new(),
            fields,
            shadow: true,
            top_level: false,
            x: None,
            y: None,
            mutation: None,
            comment: None,
        };
        if !str_eq(arg_id.as_str(), prototype_id.as_str()) && kv_find(&ctx.blocks, arg_id.as_str()).is_none() {
            proof {
                lemma_push_other_missing(ctx.blocks@, (arg_id, Block::Normal(block)), prototype_id@);
            }
            ctx.blocks.push((arg_id.clone(), Block::Normal(block)));
        }
        let ghost before = inputs@;
        inputs.push((arg_id.clone(), Input::Generic(json_list2(JsonValue::Int(1), JsonValue::Str(arg_id)))));
        assert forall|k: int| 0 <= k < i + 1 implies {
            &&& (#[trigger] inputs@[k]).0@ == info.arg_ids@[k]@
            &&& input_view(inputs@[k].1) == seq![JsonV::Int(1), JsonV::Str(info.arg_ids@[k]@)]
        } by {
            if k < i {
                assert(inputs@[k] == before[k]);
            }
        }
        i += 1;
    }
    let defaults = empty_strings(n);
    let mutation = Mutation {
        tag_name: lit("mutation"),
        children: Some(Vec::new()),
        proccode: Some(info.proccode.clone()),
        argumentids: Some(json_strings(&info.arg_ids)),
        argumentnames: Some(json_strings(&info.arg_names)),
        argumentdefaults: Some(json_strings(&defaults)),
        warp: Some(bool_str(info.warp)),
    };
    let prototype = NormalBlock {
        opcode: lit("procedures_prototype"),
        next: None,
        parent: None,
        inputs,
        fields: Vec::new(),
        shadow: true,
        top_level: false,
        x: None,
        y: None,
        mutation: Some(mutation),
        comment: None,
    };
    let ghost pv = prototype;
    let ghost b0 = ctx.blocks@;
    proof {
        lemma_push_fresh(b0, prototype_id, pv);
        lemma_kv_index(b0, prototype_id@);
        assert forall|j: int| 0 <= j < b0.len() implies #[trigger] b0.push((prototype_id, Block::Normal(pv)))[j].0@ != prototype_id@ by {
            assert(b0.push((prototype_id, Block::Normal(pv)))[j] == b0[j]);
        }
        lemma_kv_index_prefix(b0.push((prototype_id, Block::Normal(pv))), b0.len() as int, prototype_id@);
    }
    ctx.blocks.push((prototype_id.clone(), Block::Normal(prototype)));
    assert(normal_at(ctx.blocks@, prototype_id@) == Some(pv));
    let mut proc_args: Vec<(String, Type)> = Vec::new();
    let mut j: usize = 0;
    while j < p.params.len()
        invariant
            j <= p.params.len(),
        decreases p.params.len() - j,
    {
        kv_insert(&mut proc_args, p.params[j].name.clone(), p.params[j].ty);
        j += 1;
    }
    ctx.current_proc_args = Some(proc_args);
    let ghost c1 = *ctx;
    proof {
        lemma_stmts_view(p.body@);
        assert(same_names(*old(ctx), c1));
        lemma_seq_opcode_same(stmts_view(p.body@), *old(ctx), c1);
    }
    let first = match compile_sequence(&p.body, ctx) {
        Ok(x) => x,
        Err(err) => return Err(err),
    };
    let ghost made = choose|made: Seq<String>|
        {
            &&& stack_ok(ctx.blocks@, made, c1.blocks@.len() as int)
            &&& (made.len() == 0 <==> first is None)
            &&& (first matches Some(x) ==> made[0] == x)
        };
    let ghost cs = ctx.blocks@;
    ctx.current_proc_args = None;
    assert(normal_at(ctx.blocks@, prototype_id@) is Some && same_content(pv, normal_at(ctx.blocks@, prototype_id@)->0));
    let mut def_inputs: Vec<(String, Input)> = Vec::new();
    def_inputs.push((lit("custom_block"), Input::Generic(json_list2(JsonValue::Int(1), JsonValue::Str(prototype_id.clone())))));
    let definition = NormalBlock {
        opcode: lit("procedures_definition"),
        next: first.clone(),
        parent: None,
        inputs: def_inputs,
        fields: Vec::new(),
        shadow: false,
        top_level: true,
        x: Some(0),
        y: Some(0),
        mutation: None,
        comment: None,
    };
    let ghost dv = definition;
    let def_id = ctx.add_block(definition);
    let ghost a = ctx.blocks@;
    assert(kv_index(c1.blocks@, prototype_id@) >= 0);
    proof {
        lemma_extend_index(b0.push((prototype_id, Block::Normal(pv))), a, prototype_id@);
        lemma_update_extend(old(ctx).blocks@, a, prototype_id@, |b: NormalBlock| NormalBlock { parent: Some(def_id), ..b });
    }
    ctx.set_parent(prototype_id.as_str(), Some(def_id.clone()));
    proof {
        lemma_block_update_other(a, prototype_id@, |b: NormalBlock| NormalBlock { parent: Some(def_id), ..b }, def_id@);
        lemma_block_update_other(a, prototype_id@, |b: NormalBlock| NormalBlock { parent: Some(def_id), ..b }, prototype_id@);
        match &first {
            Some(fid) => {
                lemma_block_update_other(a, prototype_id@, |b: NormalBlock| NormalBlock { parent: Some(def_id), ..b }, fid@);
            },
            None => {},
        }
    }
    let ghost a2 = ctx.blocks@;
    assert(normal_at(a2, prototype_id@) is Some && same_content(pv, normal_at(a2, prototype_id@)->0)
        && normal_at(a2, prototype_id@)->0.parent == Some(def_id));
    match &first {
        Some(fid) => {
            proof {
                lemma_extend_index(cs, a, fid@);
                lemma_update_extend(old(ctx).blocks@, a2, fid@, |b: NormalBlock| NormalBlock { parent: Some(def_id), ..b });
            }
            ctx.set_parent(fid.as_str(), Some(def_id.clone()));
            proof {
                lemma_block_update_other(a2, fid@, |b: NormalBlock| NormalBlock { parent: Some(def_id), ..b }, def_id@);
                lemma_block_update_other(a2, fid@, |b: NormalBlock| NormalBlock { parent: Some(def_id), ..b }, fid@);
                lemma_block_update_other(a2, fid@, |b: NormalBlock| NormalBlock { parent: Some(def_id), ..b }, prototype_id@);
            }
        },
        None => {},
    }
    let ghost b3 = ctx.blocks@;
    match &p.comment {
        Some(c) => {
            let ghost cc = ctx.comments@;
            ctx.add_comment(Some(def_id.clone()), c.clone(), 0, 0);
            proof {
                let cid = choose|cid: String| ctx.comments@ == kv_set(cc, cid, comment_of(Some(def_id), *c, 0, 0))
                    && ctx.blocks@ == block_update(b3, def_id@, |b: NormalBlock| NormalBlock { comment: Some(cid), ..b });
                lemma_block_update_other(b3, def_id@, |b: NormalBlock| NormalBlock { comment: Some(cid), ..b }, def_id@);
                lemma_block_update_other(b3, def_id@, |b: NormalBlock| NormalBlock { comment: Some(cid), ..b }, prototype_id@);
                lemma_update_extend(old(ctx).blocks@, b3, def_id@, |b: NormalBlock| NormalBlock { comment: Some(cid), ..b });
                assert forall|q: int| 0 <= q < made.len() implies normal_at(ctx.blocks@, (#[trigger] made[q])@) == normal_at(b3, made[q]@)
                    && kv_index(ctx.blocks@, made[q]@) == kv_index(b3, made[q]@) by {
                    assert(kv_index(cs, made[q]@) >= 0);
                    lemma_block_update_other(b3, def_id@, |b: NormalBlock| NormalBlock { comment: Some(cid), ..b }, made[q]@);
                }
                match &first {
                    Some(fid) => {
                        lemma_block_update_other(b3, def_id@, |b: NormalBlock| NormalBlock { comment: Some(cid), ..b }, fid@);
                    },
                    None => {},
                }
            }
        },
        None => {},
    }
    proof {
        let oi = kv_get(old(ctx).procedures@, p.name@)->0;
        assert(oi == old(ctx).procedures@[pi as int].1);
        assert forall|k: int| 0 <= k < n implies #[trigger] info.arg_ids@[k]@ == oi.arg_ids@[k]@ by {
            assert(strs_view(info.arg_ids@)[k] == info.arg_ids@[k]@);
            assert(strs_view(oi.arg_ids@)[k] == oi.arg_ids@[k]@);
        }
    }
    proof {
        let l1 = c1.blocks@.len() as int;
        assert(kv_index(c1.blocks@, prototype_id@) < l1);
        lemma_extend_index(c1.blocks@, cs, prototype_id@);
        assert forall|q: int| 0 <= q < made.len() implies #[trigger] made[q]@ != prototype_id@ && made[q]@ != def_id@ by {
            assert(kv_index(cs, made[q]@) >= l1);
        }
        assert forall|q: int| 0 <= q < made.len() implies normal_at(a2, (#[trigger] made[q])@) == normal_at(cs, made[q]@)
            && kv_index(a2, made[q]@) == kv_index(cs, made[q]@) by {
            lemma_extend_index(cs, a, made[q]@);
            lemma_block_update_other(a, prototype_id@, |b: NormalBlock| NormalBlock { parent: Some(def_id), ..b }, made[q]@);
        }
        lemma_stack_under_kept(cs, a2, made, l1, None);
        if made.len() > 0 {
            lemma_stack_lift(a2, made, l1, def_id);
        }
        assert(stack_under(b3, made, l1, Some(def_id)));
        lemma_stack_under_kept(b3, ctx.blocks@, made, l1, Some(def_id));
        assert(stack_under(ctx.blocks@, made, old(ctx).blocks@.len() as int, Some(def_id)));
    }
    Ok(Some(def_id))
}

/// The hat block an event handler's first attribute asks for.
pub open spec fn hat_opcode(attr: Seq<char>) -> Option<Seq<char>> {
    if attr == "on_flag_clicked"@ {
        Some("event_whenflagclicked"@)
    } else if attr == "on_key_pressed"@ {
        Some("event_whenkeypressed"@)
    } else if attr == "on_clone_start"@ {
        Some("control_start_as_clone"@)
    } else if attr == "on_broadcast_received"@ {
        Some("event_whenbroadcastreceived"@)
    } else if attr == "on_sprite_clicked"@ {
        Some("event_whenthisspriteclicked"@)
    } else if attr == "on_backdrop_switches"@ {
        Some("event_whenbackdropswitchesto"@)
    } else if attr == "on_greater_than"@ {
        Some("event_whengreaterthan"@)
    } else {
        None
    }
}

fn hat_opcode_of(attr: &str) -> (r: Option<String>)
    ensures
        match r {
            Some(o) => hat_opcode(attr@) == Some(o@),
            None => hat_opcode(attr@) is None,
        },
{
    if str_eq(attr, "on_flag_clicked") {
        Some(lit("event_whenflagclicked"))
    } else if str_eq(attr, "on_key_pressed") {
        Some(lit("event_whenkeypressed"))
    } else if str_eq(attr, "on_clone_start") {
        Some(lit("control_start_as_clone"))
    } else if str_eq(attr, "on_broadcast_received") {
        Some(lit("event_whenbroadcastreceived"))
    } else if str_eq(attr, "on_sprite_clicked") {
        Some(lit("event_whenthisspriteclicked"))
    } else if str_eq(attr, "on_backdrop_switches") {
        Some(lit("event_whenbackdropswitchesto"))
    } else if str_eq(attr, "on_greater_than") {
        Some(lit("event_whengreaterthan"))
    } else {
        None
    }
}

/// The hat a handler gets: the opcode its first attribute asks for.
pub open spec fn func_hat(f: crate::ast::FunctionV) -> Option<Seq<char>> {
    if f.attributes.len() > 0 {
        hat_opcode(f.attributes[0].name)
    } else {
        None
    }
}

/// The calls a handler's hat compiles: the threshold of `on_greater_than`.
pub open spec fn hat_calls_ok(f: crate::ast::FunctionV, procs: Set<Seq<char>>) -> bool {
    f.attributes.len() > 0 && f.attributes[0].name == "on_greater_than"@ && f.attributes[0].args.len() > 1
        ==> calls_ok(f.attributes[0].args[1], procs)
}

/// Whether some broadcast of the map is named `name`.
pub open spec fn has_broadcast(m: Seq<(String, String)>, name: Seq<char>) -> bool {
    exists|k: int| 0 <= k < m.len() && (#[trigger] m[k]).1@ == name
}

/// The id of the broadcast named `name`, made when it does not exist yet:
/// the id of the first broadcast of that name, or a fresh id, which is then
/// recorded for the name.
fn broadcast_id(ctx: &mut CompilerContext, name: &String) -> (r: String)
    ensures
        data_same(*old(ctx), *final(ctx)),
        final(ctx).blocks == old(ctx).blocks,
        final(ctx).comments == old(ctx).comments,
        has_broadcast(old(ctx).broadcast_map@, name@) ==> {
            &&& final(ctx).broadcast_map == old(ctx).broadcast_map
            &&& exists|k: int|
                0 <= k < old(ctx).broadcast_map@.len() && (#[trigger] old(ctx).broadcast_map@[k]).1@ == name@
                    && r == old(ctx).broadcast_map@[k].0 && forall|j: int|
                    0 <= j < k ==> (#[trigger] old(ctx).broadcast_map@[j]).1@ != name@
        },
        !has_broadcast(old(ctx).broadcast_map@, name@) ==> {
            &&& final(ctx).broadcast_map@ == kv_set(old(ctx).broadcast_map@, r, *name)
            &&& r@.len() == 36
        },
{
    let mut i: usize = 0;
    while i < ctx.broadcast_map.len()
        invariant
            i <= ctx.broadcast_map.len(),
            ctx == old(ctx),
            forall|j: int| 0 <= j < i ==> (#[trigger] ctx.broadcast_map@[j]).1@ != name@,
        decreases ctx.broadcast_map.len() - i,
    {
        if str_eq(ctx.broadcast_map[i].1.as_str(), name.as_str()) {
            return ctx.broadcast_map[i].0.clone();
        }
        i += 1;
    }
    let new_id = new_id();
    kv_insert(&mut ctx.broadcast_map, new_id.clone(), name.clone());
    new_id
}

/// The fields of a hat block: the key, broadcast, backdrop or sensor its
/// attribute names in a text argument (the broadcast with its id).
pub open spec fn hat_fields_ok(a: crate::ast::AttributeV, fields: Seq<(Seq<char>, Seq<JsonV>)>) -> bool {
    if a.args.len() > 0 && a.args[0] is String {
        let t = a.args[0]->String_0;
        if a.name == "on_key_pressed"@ {
            fields == seq![("KEY_OPTION"@, plain_field(t))]
        } else if a.name == "on_broadcast_received"@ {
            &&& fields.len() == 1
            &&& fields[0].0 == "BROADCAST_OPTION"@
            &&& fields[0].1.len() == 2
            &&& fields[0].1[0] == JsonV::Str(t)
            &&& fields[0].1[1] is Str
        } else if a.name == "on_backdrop_switches"@ {
            fields == seq![("BACKDROP"@, plain_field(t))]
        } else if a.name == "on_greater_than"@ {
            fields == seq![("WHENGREATERTHANMENU"@, plain_field(unicode_uppercase(t)))]
        } else {
            fields.len() == 0
        }
    } else {
        fields.len() == 0
    }
}

/// The hat block `h` of the handler `f`: new, on top of its script, with
/// the hat's opcode and fields, leading to the first block of the body,
/// which sits under it.
pub open spec fn hat_made(f: crate::ast::FunctionV, pre: CompilerContext, post: CompilerContext, h: String) -> bool {
    &&& kv_index(pre.blocks@, h@) < 0
    &&& normal_at(post.blocks@, h@) matches Some(hb) && {
        &&& hb.opcode@ == func_hat(f)->0
        &&& hb.top_level
        &&& hb.parent is None
        &&& !hb.shadow
        &&& hat_fields_ok(f.attributes[0], fields_view(hb.fields@))
        &&& match seq_opcode(f.body, pre) {
            None => hb.next is None,
            Some(op) => hb.next matches Some(n) && opcode_at(post.blocks@, n@) == Some(op) && normal_at(
                post.blocks@,
                n@,
            )->0.parent == Some(h),
        }
        &&& exists|made: Seq<String>|
            {
                &&& stack_under(post.blocks@, made, pre.blocks@.len() as int, Some(h))
                &&& hb.next == (if made.len() == 0 { None } else { Some(made[0]) })
            }
    }
}

/// Compiles an event handler under the hat its first attribute names; a
/// handler without a known hat yields `None` and makes nothing.
#[verifier::rlimit(100)]
#[verifier::spinoff_prover]
fn compile_function(f: &Function, ctx: &mut CompilerContext) -> (r: Result<Option<String>, CompileError>)
    ensures
        def_frame(*old(ctx), *final(ctx)),
        final(ctx).current_proc_args == old(ctx).current_proc_args,
        r matches Ok(res) ==> (res is Some <==> func_hat(f@) is Some),
        r matches Ok(None) ==> *final(ctx) == *old(ctx),
        func_hat(f@) is None ==> r matches Ok(None),
        r matches Ok(Some(h)) ==> hat_made(f@, *old(ctx), *final(ctx), h),
        r is Ok ==> blocks_extend(old(ctx).blocks@, final(ctx).blocks@),
        stmts_calls_ok(f@.body, proc_keys(old(ctx).procedures@)) && hat_calls_ok(f@, proc_keys(old(ctx).procedures@)) ==> r is Ok,
{
    let ghost fv = f@;
    let opcode = if f.attributes.len() > 0 {
        hat_opcode_of(f.attributes[0].name.as_str())
    } else {
        None
    };
    assert(f.attributes.len() > 0 ==> fv.attributes[0].name == f.attributes@[0].name@);
    let opcode = match opcode {
        Some(o) => o,
        None => return Ok(None),
    };
    let mut fields: Vec<(String, Field)> = Vec::new();
    let mut inputs: Vec<(String, Input)> = Vec::new();
    let attr = &f.attributes[0];
    proof {
        lemma_exprs_view(attr.args@);
    }
    let aname = attr.name.as_str();
    assert(fv.attributes[0].args == exprs_view(attr.args@));
    assert(attr.args.len() > 0 ==> fv.attributes[0].args[0] == attr.args@[0]@);
    assert(fields_view(fields@) =~= Seq::<(Seq<char>, Seq<JsonV>)>::empty());
    if str_eq(aname, "on_key_pressed") {
        if attr.args.len() > 0 {
            match &attr.args[0] {
                Expr::String(key) => {
                    push_field(&mut fields, lit("KEY_OPTION"), field2(JsonValue::Str(key.clone()), JsonValue::Null));
                    assert(fields_view(fields@) =~= seq![("KEY_OPTION"@, plain_field(key@))]);
                },
                _ => {},
            }
        }
    } else if str_eq(aname, "on_broadcast_received") {
        if attr.args.len() > 0 {
            match &attr.args[0] {
                Expr::String(bname) => {
                    let id = broadcast_id(ctx, bname);
                    push_field(&mut fields, lit("BROADCAST_OPTION"), field2(JsonValue::Str(bname.clone()), JsonValue::Str(id)));
                },
                _ => {},
            }
        }
    } else if str_eq(aname, "on_backdrop_switches") {
        if attr.args.len() > 0 {
            match &attr.args[0] {
                Expr::String(backdrop) => {
                    push_field(&mut fields, lit("BACKDROP"), field2(JsonValue::Str(backdrop.clone()), JsonValue::Null));
                    assert(fields_view(fields@) =~= seq![("BACKDROP"@, plain_field(backdrop@))]);
                },
                _ => {},
            }
        }
    } else if str_eq(aname, "on_greater_than") {
        if attr.args.len() > 0 {
            match &attr.args[0] {
                Expr::String(menu) => {
                    push_field(&mut fields, lit("WHENGREATERTHANMENU"), field2(JsonValue::Str(to_uppercase(menu.as_str())), JsonValue::Null));
                    assert(fields_view(fields@) =~= seq![("WHENGREATERTHANMENU"@, plain_field(unicode_uppercase(menu@)))]);
                },
                _ => {},
            }
        }
        if attr.args.len() > 1 {
            proof {
                assert(fv.attributes[0].args[1] == attr.args@[1]@);
            }
            let v = match compile_expr_input(&attr.args[1], ctx) {
                Ok(v) => v,
                Err(err) => return Err(err),
            };
            inputs.push((lit("VALUE"), v));
        }
    }
    let ghost c1 = *ctx;
    proof {
        lemma_stmts_view(f.body@);
        lemma_seq_opcode_same(fv.body, *old(ctx), c1);
    }
    let first = match compile_sequence(&f.body, ctx) {
        Ok(x) => x,
        Err(err) => return Err(err),
    };
    let ghost made = choose|made: Seq<String>|
        {
            &&& stack_ok(ctx.blocks@, made, c1.blocks@.len() as int)
            &&& (made.len() == 0 <==> first is None)
            &&& (first matches Some(x) ==> made[0] == x)
        };
    let hat = NormalBlock {
        opcode,
        next: first.clone(),
        parent: None,
        inputs,
        fields,
        shadow: false,
        top_level: true,
        x: Some(0),
        y: Some(0),
        mutation: None,
        comment: None,
    };
    let ghost hv = hat;
    let ghost c2 = *ctx;
    let hat_id = ctx.add_block(hat);
    let ghost a = ctx.blocks@;
    match &first {
        Some(fid) => {
            assert(kv_index(c2.blocks@, fid@) >= 0);
            proof {
                lemma_extend_index(c2.blocks@, a, fid@);
                lemma_update_extend(old(ctx).blocks@, a, fid@, |b: NormalBlock| NormalBlock { parent: Some(hat_id), ..b });
            }
            ctx.set_parent(fid.as_str(), Some(hat_id.clone()));
            proof {
                lemma_block_update_other(a, fid@, |b: NormalBlock| NormalBlock { parent: Some(hat_id), ..b }, hat_id@);
                lemma_block_update_other(a, fid@, |b: NormalBlock| NormalBlock { parent: Some(hat_id), ..b }, fid@);
            }
        },
        None => {},
    }
    let ghost b3 = ctx.blocks@;
    assert(normal_at(b3, hat_id@) == Some(hv));
    match &f.comment {
        Some(c) => {
            let ghost cc = ctx.comments@;
            ctx.add_comment(Some(hat_id.clone()), c.clone(), 0, 0);
            proof {
                let cid = choose|cid: String| ctx.comments@ == kv_set(cc, cid, comment_of(Some(hat_id), *c, 0, 0))
                    && ctx.blocks@ == block_update(b3, hat_id@, |b: NormalBlock| NormalBlock { comment: Some(cid), ..b });
                lemma_block_update_other(b3, hat_id@, |b: NormalBlock| NormalBlock { comment: Some(cid), ..b }, hat_id@);
                lemma_update_extend(old(ctx).blocks@, b3, hat_id@, |b: NormalBlock| NormalBlock { comment: Some(cid), ..b });
                assert forall|q: int| 0 <= q < made.len() implies normal_at(ctx.blocks@, (#[trigger] made[q])@) == normal_at(b3, made[q]@)
                    && kv_index(ctx.blocks@, made[q]@) == kv_index(b3, made[q]@) by {
                    assert(kv_index(c2.blocks@, made[q]@) >= 0);
                    lemma_block_update_other(b3, hat_id@, |b: NormalBlock| NormalBlock { comment: Some(cid), ..b }, made[q]@);
                }
                match first {
                    Some(fid) => {
                        lemma_block_update_other(b3, hat_id@, |b: NormalBlock| NormalBlock { comment: Some(cid), ..b }, fid@);
                    },
                    None => {},
                }
            }
        },
        None => {},
    }
    proof {
        assert(fv.body == stmts_view(f.body@));
    }
    proof {
        let l0 = old(ctx).blocks@.len() as int;
        assert forall|q: int| 0 <= q < made.len() implies #[trigger] made[q]@ != hat_id@ by {
            assert(kv_index(c2.blocks@, made[q]@) >= 0);
        }
        assert forall|q: int| 0 <= q < made.len() implies normal_at(a, (#[trigger] made[q])@) == normal_at(c2.blocks@, made[q]@)
            && kv_index(a, made[q]@) == kv_index(c2.blocks@, made[q]@) by {
            lemma_extend_index(c2.blocks@, a, made[q]@);
        }
        lemma_stack_under_kept(c2.blocks@, a, made, c1.blocks@.len() as int, None);
        if made.len() > 0 {
            lemma_stack_lift(a, made, c1.blocks@.len() as int, hat_id);
        }
        assert(stack_under(b3, made, c1.blocks@.len() as int, Some(hat_id)));
        lemma_stack_under_kept(b3, ctx.blocks@, made, c1.blocks@.len() as int, Some(hat_id));
        assert(stack_under(ctx.blocks@, made, l0, Some(hat_id)));
    }
    Ok(Some(hat_id))
}

// ---------------------------------------------------------------------------
// Costumes and sounds
// ---------------------------------------------------------------------------

/// The extension of an asset's file, or the default for its kind where the
/// file name has none.
pub open spec fn asset_ext(ext: Option<Seq<char>>, default: Seq<char>) -> Seq<char> {
    match ext {
        Some(e) => e,
        None => default,
    }
}

pub open spec fn opt_ext(ext: Option<String>) -> Option<Seq<char>> {
    match ext {
        Some(e) => Some(e@),
        None => None,
    }
}

/// The name an asset is stored under in the project: the hexadecimal MD5 of
/// its content, a dot, and its extension.
pub open spec fn asset_file_name(content: Seq<u8>, ext: Seq<char>) -> Seq<char> {
    hex_lower(md5_digest(content)) + seq!['.'] + ext
}

pub open spec fn num_or_zero(n: Option<Seq<char>>) -> Seq<char> {
    match n {
        Some(t) => t,
        None => seq!['0'],
    }
}

/// A costume made from its declaration and its file.
pub open spec fn costume_ok(c: Costume, d: AssetDeclV, file_ext: Option<Seq<char>>, content: Seq<u8>) -> bool {
    let ext = asset_ext(file_ext, "svg"@);
    &&& c.asset_id@ == hex_lower(md5_digest(content))
    &&& c.name@ == d.name
    &&& c.bitmap_resolution == Some(1i32)
    &&& c.md5ext@ == asset_file_name(content, ext)
    &&& c.data_format@ == ext
    &&& c.rotation_center_x.text@ == num_or_zero(d.x)
    &&& c.rotation_center_y.text@ == num_or_zero(d.y)
}

/// A sound made from its declaration and its file.
pub open spec fn sound_ok(s: Sound, d: AssetDeclV, file_ext: Option<Seq<char>>, content: Seq<u8>) -> bool {
    let ext = asset_ext(file_ext, "wav"@);
    &&& s.asset_id@ == hex_lower(md5_digest(content))
    &&& s.name@ == d.name
    &&& s.md5ext@ == asset_file_name(content, ext)
    &&& s.data_format@ == ext
    &&& s.rate == Some(44100i32)
    &&& s.sample_count == Some(0i32)
}

fn asset_name(content: &Vec<u8>, ext: &String) -> (r: (String, String))
    ensures
        r.0@ == hex_lower(md5_digest(content@)),
        r.1@ == asset_file_name(content@, ext@),
{
    let md5 = md5_hex(content);
    let mut filename = md5.clone();
    push_char(&mut filename, '.');
    filename.append(ext.as_str());
    (md5, filename)
}

fn ext_or(ext: &Option<String>, default: &str) -> (r: String)
    ensures
        r@ == asset_ext(opt_ext(*ext), default@),
{
    match ext {
        Some(e) => e.clone(),
        None => lit(default),
    }
}

fn num_text_or_zero(n: &Option<NumLit>) -> (r: NumLit)
    ensures
        r.text@ == num_or_zero(crate::ast::num_view(*n)),
{
    match n {
        Some(x) => NumLit { text: x.text.clone() },
        None => {
            let mut t = String::new();
            push_char(&mut t, '0');
            assert(t@ =~= seq!['0']);
            NumLit { text: t }
        },
    }
}

impl CompilerContext {
    /// Adds a costume read from `source_path`, named by the MD5 of its
    /// content, and records where its file goes in the project.
    pub fn add_costume(
        &mut self,
        name: String,
        source_path: String,
        ext: &Option<String>,
        content: &Vec<u8>,
        x: &Option<NumLit>,
        y: &Option<NumLit>,
    )
        ensures
            final(self).costumes@.len() == old(self).costumes@.len() + 1,
            final(self).costumes@.subrange(0, old(self).costumes@.len() as int) == old(self).costumes@,
            costume_ok(
                final(self).costumes@.last(),
                AssetDeclV {
                    name: name@,
                    path: source_path@,
                    x: crate::ast::num_view(*x),
                    y: crate::ast::num_view(*y),
                },
                opt_ext(*ext),
                content@,
            ),
            final(self).asset_instructions@ == old(self).asset_instructions@.push(
                (source_path, final(self).costumes@.last().md5ext),
            ),
            final(self).sounds == old(self).sounds,
            final(self).blocks == old(self).blocks,
            final(self).variables == old(self).variables,
            final(self).lists == old(self).lists,
            final(self).procedures == old(self).procedures,
            final(self).comments == old(self).comments,
            final(self).broadcast_map == old(self).broadcast_map,
            final(self).global_variables == old(self).global_variables,
            final(self).global_lists == old(self).global_lists,
            final(self).current_proc_args == old(self).current_proc_args,
    {
        let ext = ext_or(ext, "svg");
        let (md5, filename) = asset_name(content, &ext);
        let c = Costume {
            asset_id: md5,
            name,
            bitmap_resolution: Some(1),
            md5ext: filename.clone(),
            data_format: ext,
            rotation_center_x: num_text_or_zero(x),
            rotation_center_y: num_text_or_zero(y),
        };
        self.costumes.push(c);
        assert(self.costumes@.subrange(0, old(self).costumes@.len() as int) =~= old(self).costumes@);
        self.asset_instructions.push((source_path, filename));
    }

    /// Adds a sound read from `source_path`, named by the MD5 of its
    /// content, and records where its file goes in the project.
    pub fn add_sound(&mut self, name: String, source_path: String, ext: &Option<String>, content: &Vec<u8>)
        ensures
            final(self).sounds@.len() == old(self).sounds@.len() + 1,
            final(self).sounds@.subrange(0, old(self).sounds@.len() as int) == old(self).sounds@,
            sound_ok(
                final(self).sounds@.last(),
                AssetDeclV { name: name@, path: source_path@, x: None, y: None },
                opt_ext(*ext),
                content@,
            ),
            final(self).asset_instructions@ == old(self).asset_instructions@.push(
                (source_path, final(self).sounds@.last().md5ext),
            ),
            final(self).costumes == old(self).costumes,
            final(self).blocks == old(self).blocks,
            final(self).variables == old(self).variables,
            final(self).lists == old(self).lists,
            final(self).procedures == old(self).procedures,
            final(self).comments == old(self).comments,
            final(self).broadcast_map == old(self).broadcast_map,
            final(self).global_variables == old(self).global_variables,
            final(self).global_lists == old(self).global_lists,
            final(self).current_proc_args == old(self).current_proc_args,
    {
        let ext = ext_or(ext, "wav");
        let (md5, filename) = asset_name(content, &ext);
        let snd = Sound {
            asset_id: md5,
            name,
            md5ext: filename.clone(),
            data_format: ext,
            rate: Some(44100),
            sample_count: Some(0),
        };
        self.sounds.push(snd);
        assert(self.sounds@.subrange(0, old(self).sounds@.len() as int) =~= old(self).sounds@);
        self.asset_instructions.push((source_path, filename));
    }
}

// ---------------------------------------------------------------------------
// Targets
// ---------------------------------------------------------------------------

/// The costume and sound declarations, in order, each marked `true` when it
/// is a costume.
pub open spec fn asset_items(items: Seq<ItemV>) -> Seq<(bool, AssetDeclV)>
    decreases items.len(),
{
    if items.len() == 0 {
        Seq::empty()
    } else {
        let r = asset_items(items.subrange(0, items.len() - 1));
        match items[items.len() - 1] {
            ItemV::Costume(a) => r.push((true, a)),
            ItemV::Sound(a) => r.push((false, a)),
            _ => r,
        }
    }
}

/// The costumes made from the asset declarations `ai`, whose files are
/// `files` (file `j` belongs to declaration `j`).
pub open spec fn costumes_ok(cs: Seq<Costume>, ai: Seq<(bool, AssetDeclV)>, files: Seq<(String, Option<String>, Vec<u8>)>) -> bool
    decreases ai.len(),
{
    if ai.len() == 0 {
        cs.len() == 0
    } else {
        let j = ai.len() - 1;
        if ai[j].0 {
            &&& cs.len() > 0
            &&& costume_ok(cs[cs.len() - 1], ai[j].1, opt_ext(files[j].1), files[j].2@)
            &&& costumes_ok(cs.subrange(0, cs.len() - 1), ai.subrange(0, j), files)
        } else {
            costumes_ok(cs, ai.subrange(0, j), files)
        }
    }
}

pub open spec fn sounds_ok(ss: Seq<Sound>, ai: Seq<(bool, AssetDeclV)>, files: Seq<(String, Option<String>, Vec<u8>)>) -> bool
    decreases ai.len(),
{
    if ai.len() == 0 {
        ss.len() == 0
    } else {
        let j = ai.len() - 1;
        if !ai[j].0 {
            &&& ss.len() > 0
            &&& sound_ok(ss[ss.len() - 1], ai[j].1, opt_ext(files[j].1), files[j].2@)
            &&& sounds_ok(ss.subrange(0, ss.len() - 1), ai.subrange(0, j), files)
        } else {
            sounds_ok(ss, ai.subrange(0, j), files)
        }
    }
}

/// Where each asset's file goes in the project: its source path and its
/// stored name, in the order of the declarations.
pub open spec fn instructions_ok(ins: Seq<(String, String)>, ai: Seq<(bool, AssetDeclV)>, files: Seq<(String, Option<String>, Vec<u8>)>) -> bool {
    &&& ins.len() == ai.len()
    &&& forall|j: int|
        0 <= j < ai.len() ==> {
            &&& (#[trigger] ins[j]).0@ == files[j].0@
            &&& ins[j].1@ == asset_file_name(
                files[j].2@,
                asset_ext(opt_ext(files[j].1), if ai[j].0 { "svg"@ } else { "wav"@ }),
            )
        }
}

/// The fixed settings of the stage or of a sprite.
pub open spec fn target_shape(t: Target, is_stage: bool) -> bool {
    &&& t.is_stage == is_stage
    &&& t.name@ == if is_stage { "Stage"@ } else { "Sprite"@ }
    &&& t.current_costume == 0
    &&& t.volume == 100
    &&& t.layer_order == 0
    &&& t.text_to_speech_language is None
    &&& if is_stage {
        &&& t.tempo == Some(60i32)
        &&& t.video_transparency == Some(50i32)
        &&& t.video_state matches Some(v) && v@ == "on"@
        &&& t.visible is None && t.x is None && t.y is None && t.size is None
        &&& t.direction is None && t.draggable is None && t.rotation_style is None
    } else {
        &&& t.tempo is None && t.video_transparency is None && t.video_state is None
        &&& t.visible == Some(true)
        &&& t.x == Some(0i64) && t.y == Some(0i64)
        &&& t.size == Some(100i64)
        &&& t.direction == Some(90i64)
        &&& t.draggable == Some(false)
        &&& t.rotation_style matches Some(r) && r@ == "all around"@
    }
}

pub open spec fn is_proc_named_c(i: ItemV, n: Seq<char>) -> bool {
    i matches ItemV::Procedure(p) && p.name == n
}

/// The names of the program's procedures.
pub open spec fn proc_names_set(items: Seq<ItemV>) -> Set<Seq<char>> {
    Set::new(|n: Seq<char>| exists|i: int| 0 <= i < items.len() && is_proc_named_c(#[trigger] items[i], n))
}

pub open spec fn item_calls_ok(it: ItemV, names: Set<Seq<char>>) -> bool {
    match it {
        ItemV::Procedure(p) => stmts_calls_ok(p.body, names),
        ItemV::Function(f) => stmts_calls_ok(f.body, names) && hat_calls_ok(f, names),
        ItemV::Stmt(s) => stmt_calls_ok(s, names),
        _ => true,
    }
}

/// Procedures that share a name have as many parameters.
pub open spec fn procs_consistent(items: Seq<ItemV>) -> bool {
    forall|i: int, j: int|
        0 <= i < items.len() && 0 <= j < items.len() && #[trigger] items[i] is Procedure
            && #[trigger] items[j] is Procedure && items[i]->Procedure_0.name == items[j]->Procedure_0.name
            ==> items[i]->Procedure_0.params.len() == items[j]->Procedure_0.params.len()
}

/// A program the compiler compiles without error: every call anywhere names
/// a known block (with enough arguments), `join` or one of its procedures,
/// and procedures that share a name agree on their parameters.
pub open spec fn program_compilable(items: Seq<ItemV>) -> bool {
    &&& forall|i: int| 0 <= i < items.len() ==> item_calls_ok(#[trigger] items[i], proc_names_set(items))
    &&& procs_consistent(items)
}

proof fn lemma_kv_set_index<T>(s: Seq<(String, T)>, k: String, v: T, n: Seq<char>)
    ensures
        (kv_index(kv_set(s, k, v), n) >= 0) == (kv_index(s, n) >= 0 || n == k@),
{
    lemma_kv_index(s, k@);
    lemma_kv_index(s, n);
    let t = kv_set(s, k, v);
    lemma_kv_index(t, n);
    if kv_index(s, k@) >= 0 {
        assert forall|j: int| 0 <= j < t.len() implies #[trigger] t[j].0@ == s[j].0@ by {}
        lemma_kv_index_keys(t, s, n);
    } else {
        if n == k@ {
            assert(t[s.len() as int].0@ == n);
        } else if kv_index(s, n) >= 0 {
            assert(t[kv_index(s, n)] == s[kv_index(s, n)]);
        } else {
            assert forall|j: int| 0 <= j < t.len() implies #[trigger] t[j].0@ != n by {
                if j < s.len() {
                    assert(t[j] == s[j]);
                }
            }
        }
    }
}

proof fn lemma_kv_set_elems<T>(s: Seq<(String, T)>, k: String, v: T)
    ensures
        forall|m: int| 0 <= m < kv_set(s, k, v).len() ==> #[trigger] kv_set(s, k, v)[m] == (k, v)
            || (m < s.len() && kv_set(s, k, v)[m] == s[m]),
{
    lemma_kv_index(s, k@);
    let t = kv_set(s, k, v);
    assert forall|m: int| 0 <= m < t.len() implies #[trigger] t[m] == (k, v) || (m < s.len() && t[m] == s[m]) by {
        if kv_index(s, k@) >= 0 {
            if m != kv_index(s, k@) {
                assert(t[m] == s[m]);
            }
        } else {
            if m < s.len() {
                assert(t[m] == s[m]);
            }
        }
    }
}

/// The recorded procedures each come from a procedure declaration of the
/// program with as many parameters, and have one id per argument name.
pub open spec fn procs_recorded(procs: Seq<(String, ProcedureInfo)>, items: Seq<ItemV>) -> bool {
    forall|k: int|
        0 <= k < procs.len() ==> {
            &&& (#[trigger] procs[k]).1.arg_names@.len() == procs[k].1.arg_ids@.len()
            &&& exists|j: int|
                0 <= j < items.len() && is_proc_named_c(#[trigger] items[j], procs[k].0@)
                    && items[j]->Procedure_0.params.len() == procs[k].1.arg_names@.len()
        }
}

/// The JSON value of a literal initializer.
fn json_of_literal(e: &Expr) -> (r: Option<JsonValue>)
    ensures
        match e@ {
            ExprV::Number(n) => r matches Some(v) && v@ == JsonV::Num(n),
            ExprV::String(t) => r matches Some(v) && v@ == JsonV::Str(t),
            ExprV::Bool(b) => r matches Some(v) && v@ == JsonV::Bool(b),
            _ => r is None,
        },
{
    match e {
        Expr::Number(n) => Some(JsonValue::Num(NumLit { text: n.text.clone() })),
        Expr::String(s) => Some(JsonValue::Str(s.clone())),
        Expr::Bool(b) => Some(JsonValue::Bool(*b)),
        _ => None,
    }
}

/// Records a procedure: its prototype text (`name` then ` %b`, ` %n` or
/// ` %s` per parameter), a fresh id and the name of each argument, and
/// whether it runs without screen refresh.
/// The placeholder a parameter of this type takes in a procedure's code.
pub open spec fn param_placeholder(t: Type) -> Seq<char> {
    match t {
        Type::Boolean => " %b"@,
        Type::Number => " %n"@,
        _ => " %s"@,
    }
}

/// A procedure's code: its name, then a placeholder per parameter.
pub open spec fn proc_code(name: Seq<char>, params: Seq<crate::ast::ParamV>) -> Seq<char>
    decreases params.len(),
{
    if params.len() == 0 {
        name
    } else {
        proc_code(name, params.drop_last()) + param_placeholder(params.last().ty)
    }
}

fn procedure_info(p: &ProcedureDef) -> (r: ProcedureInfo)
    ensures
        r.arg_names@.len() == p.params@.len(),
        r.arg_ids@.len() == p.params@.len(),
        r.warp == p.is_warp,
        r.proccode@ == proc_code(p@.name, p@.params),
        strs_view(r.arg_names@) == p@.params.map_values(|q: crate::ast::ParamV| q.name),
        forall|k: int| 0 <= k < r.arg_ids@.len() ==> (#[trigger] r.arg_ids@[k])@.len() == 36,
{
    let mut proccode = p.name.clone();
    let mut arg_ids: Vec<String> = Vec::new();
    let mut arg_names: Vec<String> = Vec::new();
    let mut i: usize = 0;
    let ghost pv = p@.params;
    while i < p.params.len()
        invariant
            i <= p.params.len(),
            pv == p@.params,
            pv.len() == p.params@.len(),
            arg_ids@.len() == i,
            arg_names@.len() == i,
            proccode@ == proc_code(p@.name, pv.subrange(0, i as int)),
            forall|k: int| 0 <= k < i ==> (#[trigger] arg_names@[k])@ == pv[k].name,
            forall|k: int| 0 <= k < i ==> (#[trigger] arg_ids@[k])@.len() == 36,
        decreases p.params.len() - i,
    {
        assert(pv[i as int] == crate::ast::ParamV { name: p.params@[i as int].name@, ty: p.params@[i as int].ty });
        assert(pv.subrange(0, i + 1).drop_last() =~= pv.subrange(0, i as int));
        match p.params[i].ty {
            Type::Boolean => proccode.append(" %b"),
            Type::Number => proccode.append(" %n"),
            _ => proccode.append(" %s"),
        }
        arg_ids.push(new_id());
        arg_names.push(p.params[i].name.clone());
        i += 1;
    }
    assert(pv.subrange(0, i as int) =~= pv);
    assert(strs_view(arg_names@) =~= pv.map_values(|q: crate::ast::ParamV| q.name));
    ProcedureInfo { proccode, arg_ids, arg_names, warp: p.is_warp }
}

/// The paths of the costume and sound files a program declares, in order;
/// their contents are what [`compile_target`] takes.
pub fn asset_paths(program: &Program) -> (r: Vec<String>)
    ensures
        r@.len() == asset_items(program@.items).len(),
        forall|j: int| 0 <= j < r@.len() ==> (#[trigger] r@[j])@ == asset_items(program@.items)[j].1.path,
{
    let ghost iv = items_view(program.items@);
    proof {
        lemma_items_view(program.items@);
    }
    let mut out: Vec<String> = Vec::new();
    let mut i: usize = 0;
    assert(asset_items(iv.subrange(0, 0)).len() == 0);
    while i < program.items.len()
        invariant
            i <= program.items.len(),
            iv == items_view(program.items@),
            iv.len() == program.items.len(),
            forall|q: int| 0 <= q < program.items.len() ==> #[trigger] iv[q] == program.items@[q]@,
            out@.len() == asset_items(iv.subrange(0, i as int)).len(),
            forall|j: int| 0 <= j < out@.len() ==> (#[trigger] out@[j])@ == asset_items(iv.subrange(0, i as int))[j].1.path,
        decreases program.items.len() - i,
    {
        assert(iv.subrange(0, i + 1).subrange(0, i as int) =~= iv.subrange(0, i as int));
        match &program.items[i] {
            Item::Costume(d) => out.push(d.path.clone()),
            Item::Sound(d) => out.push(d.path.clone()),
            _ => {},
        }
        i += 1;
    }
    assert(iv.subrange(0, i as int) =~= iv);
    out
}

proof fn lemma_asset_items_prefix(iv: Seq<ItemV>, i: int, k: int)
    requires
        0 <= i <= k <= iv.len(),
    ensures
        asset_items(iv.subrange(0, i)).len() <= asset_items(iv.subrange(0, k)).len(),
        asset_items(iv.subrange(0, k)).subrange(0, asset_items(iv.subrange(0, i)).len() as int)
            == asset_items(iv.subrange(0, i)),
    decreases k - i,
{
    if i == k {
        assert(asset_items(iv.subrange(0, k)).subrange(0, asset_items(iv.subrange(0, k)).len() as int)
            =~= asset_items(iv.subrange(0, k)));
    } else {
        lemma_asset_items_prefix(iv, i, k - 1);
        assert(iv.subrange(0, k).subrange(0, k - 1) =~= iv.subrange(0, k - 1));
        let a = asset_items(iv.subrange(0, k - 1));
        let b = asset_items(iv.subrange(0, k));
        let n = asset_items(iv.subrange(0, i)).len() as int;
        assert(b.subrange(0, n) =~= a.subrange(0, n));
    }
}

/// Items that end a script at the top of a target: comments, blank lines,
/// handlers and procedures.
pub open spec fn ends_script(i: ItemV) -> bool {
    i is Comment || i is BatchBreak || i is Function || i is Procedure
}

/// The block of the latest item before `q` in the same top-level script.
pub open spec fn script_prev(items: Seq<ItemV>, ids: Seq<Option<String>>, q: int) -> Option<String>
    decreases q,
{
    if q <= 0 || q > ids.len() {
        None
    } else if ends_script(items[q - 1]) {
        None
    } else if ids[q - 1] is Some {
        ids[q - 1]
    } else {
        script_prev(items, ids, q - 1)
    }
}

/// The block of the first item after `q` in the same top-level script.
pub open spec fn script_next(items: Seq<ItemV>, ids: Seq<Option<String>>, q: int) -> Option<String>
    decreases ids.len() - q,
{
    if q < 0 || q + 1 >= ids.len() {
        None
    } else if ends_script(items[q + 1]) {
        None
    } else if ids[q + 1] is Some {
        ids[q + 1]
    } else {
        script_next(items, ids, q + 1)
    }
}

/// Nothing after `q` ends its script or makes a block.
pub open spec fn runs_open(items: Seq<ItemV>, ids: Seq<Option<String>>, q: int) -> bool
    decreases ids.len() - q,
{
    if q + 1 >= ids.len() {
        true
    } else {
        !ends_script(items[q + 1]) && ids[q + 1] is None && runs_open(items, ids, q + 1)
    }
}

proof fn lemma_runs_at(items: Seq<ItemV>, ids: Seq<Option<String>>, q: int, r: int)
    requires
        runs_open(items, ids, q),
        q < r < ids.len(),
    ensures
        !ends_script(items[r]) && ids[r] is None,
    decreases r - q,
{
    if r > q + 1 {
        lemma_runs_at(items, ids, q + 1, r);
    }
}

proof fn lemma_runs_from(items: Seq<ItemV>, ids: Seq<Option<String>>, q: int)
    requires
        forall|r: int| q < r < ids.len() ==> !ends_script(#[trigger] items[r]) && ids[r] is None,
    ensures
        runs_open(items, ids, q),
    decreases ids.len() - q,
{
    if q + 1 < ids.len() {
        assert(q < q + 1 < ids.len());
        assert(!ends_script(items[q + 1]) && ids[q + 1] is None);
        assert forall|r: int| q + 1 < r < ids.len() implies !ends_script(#[trigger] items[r]) && ids[r] is None by {
            assert(q < r < ids.len());
        }
        lemma_runs_from(items, ids, q + 1);
    }
}

/// The top-level scripts: `ids[q]` is the block that item `q` made, if
/// any. Each such block sits under the block of the item before it in its
/// script and leads to the block of the item after it; the first block of
/// each script is on top of it, at (0, 0).
pub open spec fn scripts_ok(items: Seq<ItemV>, ids: Seq<Option<String>>, blocks: Seq<(String, Block)>) -> bool {
    forall|q: int|
        0 <= q < ids.len() ==> ((#[trigger] ids[q]) matches Some(x) ==> {
            &&& items[q] is Stmt
            &&& normal_at(blocks, x@) matches Some(b) && {
                &&& b.parent == script_prev(items, ids, q)
                &&& b.next == script_next(items, ids, q)
                &&& b.top_level == (script_prev(items, ids, q) is None)
                &&& script_prev(items, ids, q) is None ==> b.x == Some(0i64) && b.y == Some(0i64)
            }
        })
}

/// No two items made blocks with the same id.
pub open spec fn ids_distinct(ids: Seq<Option<String>>) -> bool {
    forall|a: int, b: int|
        0 <= a < b < ids.len() && (#[trigger] ids[a]) is Some && (#[trigger] ids[b]) is Some ==> ids[a]->0@ != ids[b]->0@
}

/// A statement that makes a block whatever variables exist: a control
/// statement, a `let`, `repeat_until`, or a call the target knows.
pub open spec fn always_makes(s: StmtV, procs: Set<Seq<char>>) -> bool {
    match s {
        StmtV::Expr(e, _) => match e {
            ExprV::Call(n, args) => builtin_spec(n, args.len()) is Some || n == "join"@ || procs.contains(n),
            ExprV::ProcCall(n, args) => builtin_spec(n, args.len()) is Some || n == "join"@ || procs.contains(n),
            _ => false,
        },
        StmtV::If(_, _, _, _) => true,
        StmtV::Forever(_, _) => true,
        StmtV::Repeat(_, _, _) => true,
        StmtV::Until(_, _, _) => true,
        StmtV::Let(_, _, _) => true,
        StmtV::CBlock(n, args, _, _) => n == "repeat_until"@ && args.len() >= 1,
        _ => false,
    }
}

proof fn lemma_prev_push(items: Seq<ItemV>, ids: Seq<Option<String>>, x: Option<String>, q: int)
    requires
        0 <= q <= ids.len(),
    ensures
        script_prev(items, ids.push(x), q) == script_prev(items, ids, q),
    decreases q,
{
    if q > 0 {
        assert(ids.push(x)[q - 1] == ids[q - 1]);
        lemma_prev_push(items, ids, x, q - 1);
    }
}

proof fn lemma_next_push(items: Seq<ItemV>, ids: Seq<Option<String>>, x: Option<String>, q: int)
    requires
        0 <= q < ids.len(),
        ids.len() < items.len(),
    ensures
        runs_open(items, ids, q) ==> script_next(items, ids, q) is None,
        script_next(items, ids.push(x), q) == if runs_open(items, ids, q) && !ends_script(items[ids.len() as int]) {
            x
        } else {
            script_next(items, ids, q)
        },
    decreases ids.len() - q,
{
    let n = ids.len() as int;
    let i2 = ids.push(x);
    if q + 1 == n {
        assert(i2[n] == x);
        if !ends_script(items[n]) && x is None {
            assert(script_next(items, i2, n) is None);
        }
    } else {
        assert(i2[q + 1] == ids[q + 1]);
        if ends_script(items[q + 1]) || ids[q + 1] is Some {
        } else {
            lemma_next_push(items, ids, x, q + 1);
        }
    }
}

/// The block found before the end of the list lies at some `pl` with
/// nothing after it.
proof fn lemma_prev_found(items: Seq<ItemV>, ids: Seq<Option<String>>, p: int)
    requires
        0 <= p <= ids.len(),
        script_prev(items, ids, p) is Some,
        forall|r: int| p <= r < ids.len() ==> !ends_script(#[trigger] items[r]) && ids[r] is None,
    ensures
        exists|pl: int| 0 <= pl < p && ids[pl] == script_prev(items, ids, p) && runs_open(items, ids, pl),
    decreases p,
{
    if ids[p - 1] is Some && !ends_script(items[p - 1]) {
        let pl = p - 1;
        lemma_runs_from(items, ids, pl);
    } else {
        assert(!ends_script(items[p - 1]) && ids[p - 1] is None);
        assert forall|r: int| p - 1 <= r < ids.len() implies !ends_script(#[trigger] items[r]) && ids[r] is None by {
            if r >= p {
                assert(p <= r < ids.len());
            }
        }
        lemma_prev_found(items, ids, p - 1);
    }
}

/// A block with nothing after it in its script is the one before the end.
proof fn lemma_prev_open(items: Seq<ItemV>, ids: Seq<Option<String>>, q: int, p: int)
    requires
        0 <= q < p <= ids.len(),
        ids[q] is Some,
        !ends_script(items[q]),
        runs_open(items, ids, q),
    ensures
        script_prev(items, ids, p) == ids[q],
    decreases p - q,
{
    if p > q + 1 {
        lemma_runs_at(items, ids, q, p - 1);
        lemma_prev_open(items, ids, q, p - 1);
    }
}

/// An item that makes no block leaves the scripts as they were.
proof fn lemma_scripts_push_none(items: Seq<ItemV>, ids: Seq<Option<String>>, b: Seq<(String, Block)>, f: Seq<(String, Block)>)
    requires
        ids.len() < items.len(),
        scripts_ok(items, ids, b),
        ids_distinct(ids),
        forall|q: int| 0 <= q < ids.len() && (#[trigger] ids[q]) is Some ==> normal_at(f, ids[q]->0@) == normal_at(b, ids[q]->0@),
    ensures
        scripts_ok(items, ids.push(None), f),
        ids_distinct(ids.push(None)),
{
    let i2 = ids.push(None);
    assert forall|q: int| 0 <= q < i2.len() implies ((#[trigger] i2[q]) matches Some(x) ==> {
        &&& items[q] is Stmt
        &&& normal_at(f, x@) matches Some(bb) && {
            &&& bb.parent == script_prev(items, i2, q)
            &&& bb.next == script_next(items, i2, q)
            &&& bb.top_level == (script_prev(items, i2, q) is None)
            &&& script_prev(items, i2, q) is None ==> bb.x == Some(0i64) && bb.y == Some(0i64)
        }
    }) by {
        if q < ids.len() && ids[q] is Some {
            assert(i2[q] == ids[q]);
            lemma_prev_push(items, ids, None, q);
            lemma_next_push(items, ids, None, q);
        }
    }
    assert forall|a: int, c: int|
        0 <= a < c < i2.len() && (#[trigger] i2[a]) is Some && (#[trigger] i2[c]) is Some implies i2[a]->0@ != i2[c]->0@ by {
        assert(i2[a] == ids[a]);
        assert(i2[c] == ids[c]);
    }
}

/// A statement's new block, after the block `last` of the script, joins
/// the scripts.
proof fn lemma_scripts_push_block(
    items: Seq<ItemV>,
    ids: Seq<Option<String>>,
    b: Seq<(String, Block)>,
    f: Seq<(String, Block)>,
    id: String,
)
    requires
        ids.len() < items.len(),
        items[ids.len() as int] is Stmt,
        scripts_ok(items, ids, b),
        ids_distinct(ids),
        kv_index(b, id@) < 0,
        forall|q: int| 0 <= q < ids.len() && (#[trigger] ids[q]) is Some ==> normal_at(f, ids[q]->0@) == normal_at(
            link_after(b, script_prev(items, ids, ids.len() as int), id),
            ids[q]->0@,
        ),
        normal_at(f, id@) matches Some(nb) && {
            &&& nb.parent == script_prev(items, ids, ids.len() as int)
            &&& nb.next is None
            &&& nb.top_level == (script_prev(items, ids, ids.len() as int) is None)
            &&& script_prev(items, ids, ids.len() as int) is None ==> nb.x == Some(0i64) && nb.y == Some(0i64)
        },
    ensures
        scripts_ok(items, ids.push(Some(id)), f),
        ids_distinct(ids.push(Some(id))),
{
    let n = ids.len() as int;
    let i2 = ids.push(Some(id));
    let last = script_prev(items, ids, n);
    assert forall|q: int| 0 <= q < i2.len() implies ((#[trigger] i2[q]) matches Some(x) ==> {
        &&& items[q] is Stmt
        &&& normal_at(f, x@) matches Some(bb) && {
            &&& bb.parent == script_prev(items, i2, q)
            &&& bb.next == script_next(items, i2, q)
            &&& bb.top_level == (script_prev(items, i2, q) is None)
            &&& script_prev(items, i2, q) is None ==> bb.x == Some(0i64) && bb.y == Some(0i64)
        }
    }) by {
        lemma_prev_push(items, ids, Some(id), q);
        if q < n && ids[q] is Some {
            let x = ids[q]->0;
            assert(i2[q] == ids[q]);
            lemma_next_push(items, ids, Some(id), q);
            assert(kv_index(b, x@) >= 0);
            match last {
                Some(l) => {
                    lemma_block_update_other(b, l@, |bb: NormalBlock| with_next(bb, id), x@);
                    if runs_open(items, ids, q) {
                        lemma_prev_open(items, ids, q, n);
                    }
                    if x@ == l@ {
                        lemma_prev_found(items, ids, n);
                        let pl = choose|pl: int| 0 <= pl < n && ids[pl] == script_prev(items, ids, n) && runs_open(items, ids, pl);
                        if pl != q {
                            if pl < q {
                                assert(ids[pl]->0@ != ids[q]->0@);
                            } else {
                                assert(ids[q]->0@ != ids[pl]->0@);
                            }
                        }
                    }
                },
                None => {
                    if runs_open(items, ids, q) {
                        lemma_prev_open(items, ids, q, n);
                    }
                },
            }
        }
    }
    assert forall|a: int, c: int|
        0 <= a < c < i2.len() && (#[trigger] i2[a]) is Some && (#[trigger] i2[c]) is Some implies i2[a]->0@ != i2[c]->0@ by {
        assert(i2[a] == ids[a]);
        if c == n {
            assert(kv_index(b, ids[a]->0@) >= 0);
        } else {
            assert(i2[c] == ids[c]);
        }
    }
}

/// The value a declaration's literal gives a variable: the number, text or
/// truth value itself, and 0 for anything else.
pub open spec fn literal_value(e: ExprV) -> JsonV {
    match e {
        ExprV::Number(n) => JsonV::Num(n),
        ExprV::String(t) => JsonV::Str(t),
        ExprV::Bool(b) => JsonV::Bool(b),
        _ => JsonV::Int(0),
    }
}

/// The literal elements of a list's initializer, in order.
pub open spec fn literal_values(es: Seq<ExprV>) -> Seq<JsonV>
    decreases es.len(),
{
    if es.len() == 0 {
        Seq::empty()
    } else {
        let r = literal_values(es.subrange(0, es.len() - 1));
        match es[es.len() - 1] {
            ExprV::Number(n) => r.push(JsonV::Num(n)),
            ExprV::String(t) => r.push(JsonV::Str(t)),
            ExprV::Bool(b) => r.push(JsonV::Bool(b)),
            _ => r,
        }
    }
}

/// Whether a target declares `d`: the stage declares every variable, a
/// sprite only those that are not public (those live on the stage).
pub open spec fn declares(d: crate::ast::VariableDeclV, is_stage: bool) -> bool {
    is_stage || d.visibility != Visibility::Public
}

/// The variables a target declares, by name and value, in order.
pub open spec fn decl_vars(items: Seq<ItemV>, is_stage: bool) -> Seq<(Seq<char>, JsonV)>
    decreases items.len(),
{
    if items.len() == 0 {
        Seq::empty()
    } else {
        let r = decl_vars(items.subrange(0, items.len() - 1), is_stage);
        match items[items.len() - 1] {
            ItemV::Variable(d) => if declares(d, is_stage) && d.ty != Type::List {
                r.push((d.name, literal_value(d.init)))
            } else {
                r
            },
            _ => r,
        }
    }
}

/// The lists a target declares, by name and elements, in order.
pub open spec fn decl_lists(items: Seq<ItemV>, is_stage: bool) -> Seq<(Seq<char>, Seq<JsonV>)>
    decreases items.len(),
{
    if items.len() == 0 {
        Seq::empty()
    } else {
        let r = decl_lists(items.subrange(0, items.len() - 1), is_stage);
        match items[items.len() - 1] {
            ItemV::Variable(d) => if declares(d, is_stage) && d.ty == Type::List {
                r.push(
                    (
                        d.name,
                        match d.init {
                            ExprV::List(es) => literal_values(es),
                            _ => Seq::empty(),
                        },
                    ),
                )
            } else {
                r
            },
            _ => r,
        }
    }
}

/// A target's variables by name and value.
pub open spec fn vars_view(s: Seq<(String, (String, JsonValue))>) -> Seq<(Seq<char>, JsonV)> {
    s.map_values(|e: (String, (String, JsonValue))| (e.1.0@, e.1.1@))
}

/// A target's lists by name and elements.
pub open spec fn lists_view(s: Seq<(String, (String, Vec<JsonValue>))>) -> Seq<(Seq<char>, Seq<JsonV>)> {
    s.map_values(|e: (String, (String, Vec<JsonValue>))| (e.1.0@, jsons_view(e.1.1@)))
}


/// Compiles one target from a transformed program: first its variables,
/// lists, costumes, sounds and procedure prototypes, then its handlers,
/// procedures and top-level scripts. `assets` holds the path, the extension
/// of the file name (if it has one) and the content of each costume and
/// sound file, in the order of [`asset_paths`]; the second part of the
/// result says where each goes in the project.
#[verifier::rlimit(100)]
#[verifier::spinoff_prover]
pub fn compile_target(
    program: &Program,
    is_stage: bool,
    global_variables: Option<Vec<(String, (String, JsonValue))>>,
    global_lists: Option<Vec<(String, (String, Vec<JsonValue>))>>,
    assets: &Vec<(String, Option<String>, Vec<u8>)>,
) -> (r: Result<(Target, Vec<(String, String)>), CompileError>)
    requires
        assets@.len() == asset_items(program@.items).len(),
    ensures
        r matches Ok((t, ins)) ==> {
            &&& target_shape(t, is_stage)
            &&& costumes_ok(t.costumes@, asset_items(program@.items), assets@)
            &&& sounds_ok(t.sounds@, asset_items(program@.items), assets@)
            &&& instructions_ok(ins@, asset_items(program@.items), assets@)
            &&& prefix_of(decl_vars(program@.items, is_stage), vars_view(t.variables@))
            &&& lists_view(t.lists@) == decl_lists(program@.items, is_stage)
            &&& exists|ids: Seq<Option<String>>|
                {
                    &&& ids.len() == program@.items.len()
                    &&& scripts_ok(program@.items, ids, t.blocks@)
                    &&& forall|q: int|
                        0 <= q < ids.len() ==> ((#[trigger] program@.items[q]) matches ItemV::Stmt(st) && always_makes(
                            st,
                            proc_names_set(program@.items),
                        ) ==> ids[q] is Some)
                }
        },
        program_compilable(program@.items) ==> r is Ok,
{
    let ghost iv = items_view(program.items@);
    let ghost full = asset_items(iv);
    proof {
        lemma_items_view(program.items@);
    }
    let mut ctx = CompilerContext::new(global_variables, global_lists);
    let mut j: usize = 0;
    let mut i: usize = 0;
    assert(iv.subrange(0, 0) =~= Seq::<ItemV>::empty());
    assert(ctx.costumes@ =~= Seq::<Costume>::empty());
    assert(ctx.sounds@ =~= Seq::<Sound>::empty());
    assert(vars_view(ctx.variables@) =~= decl_vars(iv.subrange(0, 0), is_stage));
    assert(lists_view(ctx.lists@) =~= decl_lists(iv.subrange(0, 0), is_stage));
    assert(proc_keys(ctx.procedures@) =~= Set::new(|n: Seq<char>| exists|q: int| 0 <= q < 0 && is_proc_named_c(#[trigger] iv[q], n)));
    while i < program.items.len()
        invariant
            i <= program.items.len(),
            iv == items_view(program.items@),
            iv.len() == program.items.len(),
            forall|q: int| 0 <= q < program.items.len() ==> #[trigger] iv[q] == program.items@[q]@,
            full == asset_items(iv),
            assets@.len() == full.len(),
            j == asset_items(iv.subrange(0, i as int)).len(),
            vars_view(ctx.variables@) == decl_vars(iv.subrange(0, i as int), is_stage),
            lists_view(ctx.lists@) == decl_lists(iv.subrange(0, i as int), is_stage),
            costumes_ok(ctx.costumes@, asset_items(iv.subrange(0, i as int)), assets@),
            sounds_ok(ctx.sounds@, asset_items(iv.subrange(0, i as int)), assets@),
            instructions_ok(ctx.asset_instructions@, asset_items(iv.subrange(0, i as int)), assets@),
            proc_keys(ctx.procedures@) == Set::new(|n: Seq<char>| exists|q: int| 0 <= q < i && is_proc_named_c(#[trigger] iv[q], n)),
            procs_recorded(ctx.procedures@, iv),
            ctx.current_proc_args is None,
        decreases program.items.len() - i,
    {
        let ghost pre = iv.subrange(0, i as int);
        let ghost next = iv.subrange(0, i + 1);
        assert(next.subrange(0, i as int) =~= pre);
        assert(next[i as int] == iv[i as int]);
        proof {
            lemma_asset_items_prefix(iv, i + 1, iv.len() as int);
            assert(iv.subrange(0, iv.len() as int) =~= iv);
        }
        let ghost ai = asset_items(pre);
        let ghost procs_before = ctx.procedures@;
        match &program.items[i] {
            Item::Variable(decl) => {
                let skip = !is_stage && decl.visibility == Visibility::Public;
                if !skip {
                    match &decl.comment {
                        Some(c) => ctx.add_comment(None, c.clone(), 0, 0),
                        None => {},
                    }
                    if decl.ty == Type::List {
                        let mut values: Vec<JsonValue> = Vec::new();
                        let ghost vals: Seq<JsonV> = Seq::empty();
                        match &decl.init {
                            Expr::List(exprs) => {
                                let ghost ev = exprs_view(exprs@);
                                proof {
                                    lemma_exprs_view(exprs@);
                                    assert(ev.subrange(0, 0) =~= Seq::<ExprV>::empty());
                                    assert(jsons_view(values@) =~= Seq::<JsonV>::empty());
                                }
                                let mut e: usize = 0;
                                while e < exprs.len()
                                    invariant
                                        e <= exprs.len(),
                                        ev == exprs_view(exprs@),
                                        ev.len() == exprs.len(),
                                        forall|q: int| 0 <= q < exprs.len() ==> #[trigger] ev[q] == exprs@[q]@,
                                        jsons_view(values@) == literal_values(ev.subrange(0, e as int)),
                                    decreases exprs.len() - e,
                                {
                                    let ghost v0 = values@;
                                    assert(ev.subrange(0, e + 1).subrange(0, e as int) =~= ev.subrange(0, e as int));
                                    assert(ev.subrange(0, e + 1)[e as int] == exprs@[e as int]@);
                                    match json_of_literal(&exprs[e]) {
                                        Some(v) => {
                                            values.push(v);
                                            assert(values@.subrange(0, values@.len() - 1) =~= v0);
                                        },
                                        None => {},
                                    }
                                    e += 1;
                                }
                                assert(ev.subrange(0, e as int) =~= ev);
                            },
                            _ => {},
                        }
                        let ghost l0 = ctx.lists@;
                        ctx.add_list(decl.name.clone(), values);
                        assert(lists_view(ctx.lists@) =~= lists_view(l0).push(lists_view(ctx.lists@).last()));
                    } else {
                        let val = match json_of_literal(&decl.init) {
                            Some(v) => v,
                            None => JsonValue::Int(0),
                        };
                        let ghost v0 = ctx.variables@;
                        ctx.add_variable(decl.name.clone(), val);
                        assert(vars_view(ctx.variables@) =~= vars_view(v0).push(vars_view(ctx.variables@).last()));
                    }
                }
                assert(asset_items(next) =~= ai);
            },
            Item::Costume(d) => {
                assert(asset_items(next) =~= ai.push((true, crate::ast::asset_view(*d))));
                assert(asset_items(iv.subrange(0, iv.len() as int)) == full);
                assert(full.subrange(0, j + 1) == asset_items(next));
                assert(full.subrange(0, j + 1)[j as int] == full[j as int]);
                assert(full[j as int] == (true, crate::ast::asset_view(*d)));
                assert(j < assets@.len());
                let ghost cs0 = ctx.costumes@;
                let ghost ins0 = ctx.asset_instructions@;
                ctx.add_costume(d.name.clone(), assets[j].0.clone(), &assets[j].1, &assets[j].2, &d.x, &d.y);
                let ghost ai2 = asset_items(next);
                assert(ai2.subrange(0, j as int) =~= ai);
                assert(ctx.costumes@.subrange(0, ctx.costumes@.len() - 1) =~= cs0);
                assert(costumes_ok(ctx.costumes@, ai2, assets@));
                assert(sounds_ok(ctx.sounds@, ai2, assets@));
                assert forall|q: int| 0 <= q < ai2.len() implies {
                    &&& (#[trigger] ctx.asset_instructions@[q]).0@ == assets@[q].0@
                    &&& ctx.asset_instructions@[q].1@ == asset_file_name(
                        assets@[q].2@,
                        asset_ext(opt_ext(assets@[q].1), if ai2[q].0 { "svg"@ } else { "wav"@ }),
                    )
                } by {
                    if q < j {
                        assert(ctx.asset_instructions@[q] == ins0[q]);
                        assert(ai2[q] == ai[q]);
                    }
                }
                assert(j < assets.len());
                j += 1;
            },
            Item::Sound(d) => {
                assert(asset_items(next) =~= ai.push((false, crate::ast::asset_view(*d))));
                assert(asset_items(iv.subrange(0, iv.len() as int)) == full);
                assert(full.subrange(0, j + 1) == asset_items(next));
                assert(full.subrange(0, j + 1)[j as int] == full[j as int]);
                assert(full[j as int] == (false, crate::ast::asset_view(*d)));
                assert(j < assets@.len());
                let ghost ss0 = ctx.sounds@;
                let ghost ins0 = ctx.asset_instructions@;
                ctx.add_sound(d.name.clone(), assets[j].0.clone(), &assets[j].1, &assets[j].2);
                let ghost ai2 = asset_items(next);
                assert(ai2.subrange(0, j as int) =~= ai);
                assert(ctx.sounds@.subrange(0, ctx.sounds@.len() - 1) =~= ss0);
                assert(sounds_ok(ctx.sounds@, ai2, assets@));
                assert(costumes_ok(ctx.costumes@, ai2, assets@));
                assert forall|q: int| 0 <= q < ai2.len() implies {
                    &&& (#[trigger] ctx.asset_instructions@[q]).0@ == assets@[q].0@
                    &&& ctx.asset_instructions@[q].1@ == asset_file_name(
                        assets@[q].2@,
                        asset_ext(opt_ext(assets@[q].1), if ai2[q].0 { "svg"@ } else { "wav"@ }),
                    )
                } by {
                    if q < j {
                        assert(ctx.asset_instructions@[q] == ins0[q]);
                        assert(ai2[q] == ai[q]);
                    }
                }
                assert(j < assets.len());
                j += 1;
            },
            Item::Procedure(p) => {
                let info = procedure_info(p);
                let ghost inf = info;
                kv_insert(&mut ctx.procedures, p.name.clone(), info);
                proof {
                    let old_set = Set::new(|n: Seq<char>| exists|q: int| 0 <= q < i && is_proc_named_c(#[trigger] iv[q], n));
                    assert(proc_keys(procs_before) == old_set);
                    assert(iv[i as int] == ItemV::Procedure(p@));
                    assert forall|n: Seq<char>| #[trigger] proc_keys(ctx.procedures@).contains(n)
                        == (exists|q: int| 0 <= q < i + 1 && is_proc_named_c(#[trigger] iv[q], n)) by {
                        lemma_kv_set_index(procs_before, p.name, inf, n);
                        assert(proc_keys(ctx.procedures@).contains(n) == (kv_index(ctx.procedures@, n) >= 0));
                        assert(proc_keys(procs_before).contains(n) == (kv_index(procs_before, n) >= 0));
                        assert(old_set.contains(n) == (exists|q: int| 0 <= q < i && is_proc_named_c(#[trigger] iv[q], n)));
                        assert(is_proc_named_c(iv[i as int], n) == (n == p.name@));
                        if exists|q: int| 0 <= q < i + 1 && is_proc_named_c(#[trigger] iv[q], n) {
                            let q = choose|q: int| 0 <= q < i + 1 && is_proc_named_c(#[trigger] iv[q], n);
                            if q < i {
                                assert(old_set.contains(n));
                            }
                        }
                        if kv_index(ctx.procedures@, n) >= 0 {
                            if n != p.name@ {
                                assert(old_set.contains(n));
                                let q = choose|q: int| 0 <= q < i && is_proc_named_c(#[trigger] iv[q], n);
                                assert(0 <= q < i + 1 && is_proc_named_c(iv[q], n));
                            } else {
                                assert(is_proc_named_c(iv[i as int], n));
                            }
                        }
                    }
                    assert(proc_keys(ctx.procedures@) =~= Set::new(|n: Seq<char>| exists|q: int| 0 <= q < i + 1 && is_proc_named_c(#[trigger] iv[q], n)));
                    lemma_kv_set_elems(procs_before, p.name, inf);
                    assert forall|k: int| 0 <= k < ctx.procedures@.len() implies {
                        &&& (#[trigger] ctx.procedures@[k]).1.arg_names@.len() == ctx.procedures@[k].1.arg_ids@.len()
                        &&& exists|q: int|
                            0 <= q < iv.len() && is_proc_named_c(#[trigger] iv[q], ctx.procedures@[k].0@)
                                && iv[q]->Procedure_0.params.len() == ctx.procedures@[k].1.arg_names@.len()
                    } by {
                        if ctx.procedures@[k] == (p.name, inf) {
                            assert(is_proc_named_c(iv[i as int], p.name@));
                        } else {
                            assert(ctx.procedures@[k] == procs_before[k]);
                        }
                    }
                }
                assert(asset_items(next) =~= ai);
            },
            _ => {
                assert(asset_items(next) =~= ai);
            },
        }
        proof {
            if !(program.items@[i as int] is Procedure) {
                assert(!(iv[i as int] is Procedure));
                assert forall|n: Seq<char>| #[trigger] proc_keys(ctx.procedures@).contains(n)
                    == (exists|q: int| 0 <= q < i + 1 && is_proc_named_c(#[trigger] iv[q], n)) by {
                    if exists|q: int| 0 <= q < i + 1 && is_proc_named_c(#[trigger] iv[q], n) {
                        let q = choose|q: int| 0 <= q < i + 1 && is_proc_named_c(#[trigger] iv[q], n);
                        assert(q != i);
                    }
                }
                assert(proc_keys(ctx.procedures@) =~= Set::new(|n: Seq<char>| exists|q: int| 0 <= q < i + 1 && is_proc_named_c(#[trigger] iv[q], n)));
            }
        }
        i += 1;
    }
    assert(iv.subrange(0, i as int) =~= iv);
    let ghost procs1 = ctx.procedures@;
    let ghost vars1 = ctx.variables@;
    let ghost lists1 = ctx.lists@;
    assert(proc_keys(procs1) =~= proc_names_set(iv));
    let mut last: Option<String> = None;
    let ghost mut ids: Seq<Option<String>> = Seq::empty();
    let mut i: usize = 0;
    while i < program.items.len()
        invariant
            i <= program.items.len(),
            iv == items_view(program.items@),
            iv.len() == program.items.len(),
            forall|q: int| 0 <= q < program.items.len() ==> #[trigger] iv[q] == program.items@[q]@,
            ctx.procedures@ == procs1,
            proc_keys(procs1) == proc_names_set(iv),
            procs_recorded(procs1, iv),
            full == asset_items(iv),
            costumes_ok(ctx.costumes@, full, assets@),
            sounds_ok(ctx.sounds@, full, assets@),
            instructions_ok(ctx.asset_instructions@, full, assets@),
            ctx.current_proc_args is None,
            last matches Some(p) ==> normal_at(ctx.blocks@, p@) is Some,
            prefix_of(vars1, ctx.variables@),
            ctx.lists@ == lists1,
            ids.len() == i,
            scripts_ok(iv, ids, ctx.blocks@),
            ids_distinct(ids),
            last == script_prev(iv, ids, i as int),
            forall|q: int|
                0 <= q < i ==> ((#[trigger] iv[q]) matches ItemV::Stmt(st) && always_makes(st, proc_names_set(iv)) ==> ids[q] is Some),
        decreases program.items.len() - i,
    {
        assert(iv[i as int] == program.items@[i as int]@);
        let ghost good = program_compilable(iv);
        proof {
            if good {
                assert(item_calls_ok(iv[i as int], proc_names_set(iv)));
            }
        }
        match &program.items[i] {
            Item::Comment(text) => {
                let ghost b0 = ctx.blocks@;
                ctx.add_comment(None, text.clone(), 0, 0);
                proof {
                    lemma_scripts_push_none(iv, ids, b0, ctx.blocks@);
                    ids = ids.push(None);
                }
                last = None;
            },
            Item::Stmt(stmt) => {
                let ghost c0 = ctx;
                let ghost made = stmt_opcode(stmt@, c0) is Some;
                proof {
                    let st = stmt@;
                    assert(iv[i as int] == ItemV::Stmt(st));
                    if always_makes(st, proc_names_set(iv)) {
                        assert(proc_keys(c0.procedures@) == proc_names_set(iv));
                        match st {
                            StmtV::Expr(e, _) => match e {
                                ExprV::Call(n, args) => {
                                    assert(proc_keys(c0.procedures@).contains(n) ==> kv_index(c0.procedures@, n) >= 0);
                                },
                                ExprV::ProcCall(n, args) => {
                                    assert(proc_keys(c0.procedures@).contains(n) ==> kv_index(c0.procedures@, n) >= 0);
                                },
                                _ => {},
                            },
                            _ => {},
                        }
                        assert(made);
                    }
                }
                let ghost last0 = last;
                let lc = last.clone();
                assert(lc == last);
                let res = match compile_stmt(stmt, lc, &mut ctx) {
                    Ok(x) => x,
                    Err(err) => return Err(err),
                };
                let ghost c1 = ctx.blocks@;
                match res {
                    Some(id) => {
                        if last.is_none() {
                            let ghost b0 = ctx.blocks@;
                            ctx.set_top_level(id.as_str());
                            proof {
                                lemma_block_update_other(b0, id@, |b: NormalBlock| NormalBlock { top_level: true, x: Some(0i64), y: Some(0i64), ..b }, id@);
                                assert forall|q: int| 0 <= q < ids.len() && (#[trigger] ids[q]) is Some implies normal_at(ctx.blocks@, ids[q]->0@) == normal_at(b0, ids[q]->0@) by {
                                    lemma_block_update_other(b0, id@, |b: NormalBlock| NormalBlock { top_level: true, x: Some(0i64), y: Some(0i64), ..b }, ids[q]->0@);
                                    if made {
                                        assert(kv_index(c0.blocks@, ids[q]->0@) >= 0);
                                    }
                                }
                            }
                        }
                        last = Some(id);
                    },
                    None => {},
                }
                proof {
                    if made {
                        let id = res->0;
                        let lk = link_after(c0.blocks@, last0, id);
                        match last0 {
                            Some(l) => {
                                lemma_update_at(c0.blocks@, l@, |b: NormalBlock| with_next(b, id));
                            },
                            None => {},
                        }
                        assert forall|q: int| 0 <= q < ids.len() && (#[trigger] ids[q]) is Some implies normal_at(c1, ids[q]->0@) == normal_at(lk, ids[q]->0@) by {
                            let x = ids[q]->0@;
                            assert(kv_index(c0.blocks@, x) >= 0);
                            match last0 {
                                Some(l) => {
                                    lemma_block_update_other(c0.blocks@, l@, |b: NormalBlock| with_next(b, id), x);
                                },
                                None => {},
                            }
                            lemma_extend_index(lk, c1, x);
                        }
                        lemma_scripts_push_block(iv, ids, c0.blocks@, ctx.blocks@, id);
                        ids = ids.push(Some(id));
                    } else {
                        lemma_scripts_push_none(iv, ids, c0.blocks@, ctx.blocks@);
                        lemma_prev_push(iv, ids, None, i as int);
                        ids = ids.push(None);
                    }
                }
            },
            Item::Function(f) => {
                let ghost b0 = ctx.blocks@;
                match compile_function(f, &mut ctx) {
                    Ok(_) => {},
                    Err(err) => return Err(err),
                }
                proof {
                    assert forall|q: int| 0 <= q < ids.len() && (#[trigger] ids[q]) is Some implies normal_at(ctx.blocks@, ids[q]->0@) == normal_at(b0, ids[q]->0@) by {
                        lemma_extend_index(b0, ctx.blocks@, ids[q]->0@);
                    }
                    lemma_scripts_push_none(iv, ids, b0, ctx.blocks@);
                    ids = ids.push(None);
                }
                last = None;
            },
            Item::Procedure(p) => {
                proof {
                    if good {
                        lemma_kv_index(procs1, p.name@);
                        if kv_index(procs1, p.name@) >= 0 {
                            let k = kv_index(procs1, p.name@);
                            assert(procs1[k].0@ == p.name@);
                            let q = choose|q: int|
                                0 <= q < iv.len() && is_proc_named_c(#[trigger] iv[q], procs1[k].0@)
                                    && iv[q]->Procedure_0.params.len() == procs1[k].1.arg_names@.len();
                            assert(iv[i as int] is Procedure);
                            assert(iv[q] is Procedure);
                            assert(iv[i as int]->Procedure_0.params.len() == iv[q]->Procedure_0.params.len());
                            assert(p@.params.len() == p.params@.len());
                        }
                    }
                }
                let ghost b0 = ctx.blocks@;
                match compile_procedure(p, &mut ctx) {
                    Ok(_) => {},
                    Err(err) => return Err(err),
                }
                proof {
                    assert forall|q: int| 0 <= q < ids.len() && (#[trigger] ids[q]) is Some implies normal_at(ctx.blocks@, ids[q]->0@) == normal_at(b0, ids[q]->0@) by {
                        lemma_extend_index(b0, ctx.blocks@, ids[q]->0@);
                    }
                    lemma_scripts_push_none(iv, ids, b0, ctx.blocks@);
                    ids = ids.push(None);
                }
                last = None;
            },
            Item::BatchBreak => {
                proof {
                    lemma_scripts_push_none(iv, ids, ctx.blocks@, ctx.blocks@);
                    ids = ids.push(None);
                }
                last = None;
            },
            _ => {
                proof {
                    lemma_scripts_push_none(iv, ids, ctx.blocks@, ctx.blocks@);
                    lemma_prev_push(iv, ids, None, i as int);
                    ids = ids.push(None);
                }
            },
        }
        proof {
            assert forall|q: int| 0 <= q < i + 1 implies ((#[trigger] iv[q]) matches ItemV::Stmt(st) && always_makes(st, proc_names_set(iv)) ==> ids[q] is Some) by {
                if q < i {
                    assert(ids[q] == ids.subrange(0, i as int)[q]);
                }
            }
        }
        i += 1;
    }
    proof {
        assert(vars_view(vars1) == decl_vars(iv, is_stage));
        assert forall|q: int| 0 <= q < vars_view(vars1).len() implies #[trigger] vars_view(ctx.variables@)[q] == vars_view(vars1)[q] by {
            assert(ctx.variables@[q] == vars1[q]);
        }
    }
    let ghost fb = ctx.blocks@;
    let t = Target {
        is_stage,
        name: if is_stage { lit("Stage") } else { lit("Sprite") },
        variables: ctx.variables,
        lists: ctx.lists,
        broadcasts: ctx.broadcast_map,
        blocks: ctx.blocks,
        comments: ctx.comments,
        current_costume: 0,
        costumes: ctx.costumes,
        sounds: ctx.sounds,
        volume: 100,
        layer_order: 0,
        tempo: if is_stage { Some(60) } else { None },
        video_transparency: if is_stage { Some(50) } else { None },
        video_state: if is_stage { Some(lit("on")) } else { None },
        text_to_speech_language: None,
        visible: if is_stage { None } else { Some(true) },
        x: if is_stage { None } else { Some(0) },
        y: if is_stage { None } else { Some(0) },
        size: if is_stage { None } else { Some(100) },
        direction: if is_stage { None } else { Some(90) },
        draggable: if is_stage { None } else { Some(false) },
        rotation_style: if is_stage { None } else { Some(lit("all around")) },
    };
    proof {
        assert(program@.items == iv);
        assert(t.blocks@ == fb);
        assert(ids.len() == program@.items.len());
        assert(scripts_ok(program@.items, ids, t.blocks@));
        assert(forall|q: int|
            0 <= q < ids.len() ==> ((#[trigger] program@.items[q]) matches ItemV::Stmt(st) && always_makes(
                st,
                proc_names_set(program@.items),
            ) ==> ids[q] is Some));
    }
    Ok((t, ctx.asset_instructions))
}

} // verus!
