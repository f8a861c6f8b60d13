//! The parts of a Scratch 3.0 project (`project.json`) that the compiler
//! builds. Maps from ids are association lists in insertion order; numbers
//! that the format writes as floats are kept as their decimal text
//! ([`NumLit`]) or, where they are whole, as integers.
use vstd::prelude::*;
use crate::ast::NumLit;

verus! {

/// A JSON value as the project format uses it.
#[derive(Debug)]
pub enum JsonValue {
    Null,
    Bool(bool),
    Int(i64),
    Num(NumLit),
    Str(String),
    Array(Vec<JsonValue>),
}

/// The model of a [`JsonValue`].
pub ghost enum JsonV {
    Null,
    Bool(bool),
    Int(int),
    Num(Seq<char>),
    Str(Seq<char>),
    Array(Seq<JsonV>),
}

pub open spec fn json_view(v: JsonValue) -> JsonV
    decreases v,
{
    match v {
        JsonValue::Null => JsonV::Null,
        JsonValue::Bool(b) => JsonV::Bool(b),
        JsonValue::Int(i) => JsonV::Int(i as int),
        JsonValue::Num(n) => JsonV::Num(n.text@),
        JsonValue::Str(s) => JsonV::Str(s@),
        JsonValue::Array(xs) => JsonV::Array(jsons_view(xs@)),
    }
}

pub open spec fn jsons_view(s: Seq<JsonValue>) -> Seq<JsonV>
    decreases s,
{
    if s.len() == 0 {
        Seq::empty()
    } else {
        jsons_view(s.subrange(0, s.len() - 1)).push(json_view(s[s.len() - 1]))
    }
}

impl View for JsonValue {
    type V = JsonV;

    open spec fn view(&self) -> JsonV {
        json_view(*self)
    }
}

pub proof fn lemma_jsons_view_push(s: Seq<JsonValue>, x: JsonValue)
    ensures
        jsons_view(s.push(x)) == jsons_view(s).push(json_view(x)),
{
    assert(s.push(x).subrange(0, s.len() as int) =~= s);
}

pub proof fn lemma_jsons_view(s: Seq<JsonValue>)
    ensures
        jsons_view(s).len() == s.len(),
        forall|i: int| 0 <= i < s.len() ==> #[trigger] jsons_view(s)[i] == json_view(s[i]),
    decreases s.len(),
{
    if s.len() > 0 {
        lemma_jsons_view(s.subrange(0, s.len() - 1));
    }
}

impl JsonValue {
    /// A copy with the same view.
    pub fn duplicate(&self) -> (r: JsonValue)
        ensures
            r@ == self@,
        decreases self, 1nat,
    {
        match self {
            JsonValue::Null => JsonValue::Null,
            JsonValue::Bool(b) => JsonValue::Bool(*b),
            JsonValue::Int(i) => JsonValue::Int(*i),
            JsonValue::Num(n) => JsonValue::Num(NumLit { text: n.text.clone() }),
            JsonValue::Str(s) => JsonValue::Str(s.clone()),
            JsonValue::Array(xs) => JsonValue::Array(JsonValue::duplicate_all(xs)),
        }
    }

    pub fn duplicate_all(v: &Vec<JsonValue>) -> (r: Vec<JsonValue>)
        ensures
            jsons_view(r@) == jsons_view(v@),
        decreases v, 0nat,
    {
        let mut out: Vec<JsonValue> = Vec::new();
        let mut i: usize = 0;
        while i < v.len()
            invariant
                i <= v.len(),
                jsons_view(out@) == jsons_view(v@.subrange(0, i as int)),
            decreases v.len() - i,
        {
            let x = v[i].duplicate();
            proof {
                lemma_jsons_view_push(out@, x);
                lemma_jsons_view_push(v@.subrange(0, i as int), v@[i as int]);
                assert(v@.subrange(0, i as int).push(v@[i as int]) =~= v@.subrange(0, i + 1));
            }
            out.push(x);
            i += 1;
        }
        assert(v@.subrange(0, i as int) =~= v@);
        out
    }
}

/// An input of a block: `[1, <primitive>]` (a shadow value), `[2, <id>]`
/// (a block), or `[3, <primitive or block>, <shadow>]`.
#[derive(Debug)]
pub enum Input {
    Generic(Vec<JsonValue>),
}

/// A field of a block: `[<value>, <id or null>]`.
#[derive(Debug)]
pub enum Field {
    Generic(Vec<JsonValue>),
}

pub open spec fn input_view(i: Input) -> Seq<JsonV> {
    match i {
        Input::Generic(v) => jsons_view(v@),
    }
}

pub open spec fn field_view(f: Field) -> Seq<JsonV> {
    match f {
        Field::Generic(v) => jsons_view(v@),
    }
}

/// The extra data of a procedure's prototype or call block.
#[derive(Debug)]
pub struct Mutation {
    pub tag_name: String,
    pub children: Option<Vec<JsonValue>>,
    pub proccode: Option<String>,
    pub argumentids: Option<String>,
    pub argumentnames: Option<String>,
    pub argumentdefaults: Option<String>,
    pub warp: Option<String>,
}

/// A block. Its coordinates, when it has them, are whole numbers.
#[derive(Debug)]
pub struct NormalBlock {
    pub opcode: String,
    pub next: Option<String>,
    pub parent: Option<String>,
    pub inputs: Vec<(String, Input)>,
    pub fields: Vec<(String, Field)>,
    pub shadow: bool,
    pub top_level: bool,
    pub x: Option<i64>,
    pub y: Option<i64>,
    pub mutation: Option<Mutation>,
    pub comment: Option<String>,
}

/// A variable or list reporter dropped on the workspace; the compiler does
/// not produce one.
#[derive(Debug)]
pub struct TopLevelPrimitive {}

#[derive(Debug)]
pub enum Block {
    Normal(NormalBlock),
    TopLevelPrimitive(TopLevelPrimitive),
}

/// A workspace comment, attached to a block or free.
#[derive(Debug)]
pub struct Comment {
    pub block_id: Option<String>,
    pub x: i64,
    pub y: i64,
    pub width: i64,
    pub height: i64,
    pub minimized: bool,
    pub text: String,
}

#[derive(Debug)]
pub struct Costume {
    pub asset_id: String,
    pub name: String,
    pub bitmap_resolution: Option<i32>,
    pub md5ext: String,
    pub data_format: String,
    pub rotation_center_x: NumLit,
    pub rotation_center_y: NumLit,
}

#[derive(Debug)]
pub struct Sound {
    pub asset_id: String,
    pub name: String,
    pub md5ext: String,
    pub data_format: String,
    pub rate: Option<i32>,
    pub sample_count: Option<i32>,
}

/// The stage or a sprite. The whole-number fields (`volume`, `x`, `y`,
/// `size`, `direction`) are floats in the file format.
#[derive(Debug)]
pub struct Target {
    pub is_stage: bool,
    pub name: String,
    pub variables: Vec<(String, (String, JsonValue))>,
    pub lists: Vec<(String, (String, Vec<JsonValue>))>,
    pub broadcasts: Vec<(String, String)>,
    pub blocks: Vec<(String, Block)>,
    pub comments: Vec<(String, Comment)>,
    pub current_costume: i32,
    pub costumes: Vec<Costume>,
    pub sounds: Vec<Sound>,
    pub volume: i64,
    pub layer_order: i32,
    pub tempo: Option<i32>,
    pub video_transparency: Option<i32>,
    pub video_state: Option<String>,
    pub text_to_speech_language: Option<String>,
    pub visible: Option<bool>,
    pub x: Option<i64>,
    pub y: Option<i64>,
    pub size: Option<i64>,
    pub direction: Option<i64>,
    pub draggable: Option<bool>,
    pub rotation_style: Option<String>,
}

/// A monitor shown on the stage; the compiler writes none. The slider bounds
/// are kept as decimal text.
#[derive(Debug)]
pub struct Monitor {
    pub id: String,
    pub mode: String,
    pub opcode: String,
    pub params: Vec<(String, String)>,
    pub sprite_name: Option<String>,
    pub value: JsonValue,
    pub width: i32,
    pub height: i32,
    pub x: i32,
    pub y: i32,
    pub visible: bool,
    pub slider_min: NumLit,
    pub slider_max: NumLit,
    pub is_discrete: bool,
}

/// A whole project: its targets (the stage first), monitors, the ids of the
/// extensions it uses, and its `meta` record.
#[derive(Debug)]
pub struct Sb3Project {
    pub targets: Vec<Target>,
    pub monitors: Vec<Monitor>,
    pub extensions: Vec<String>,
    pub meta: Meta,
}

/// The `meta` record of a project.
#[derive(Debug)]
pub struct Meta {
    pub semver: String,
    pub vm: String,
    pub agent: String,
}

/// The `meta` record this compiler writes.
pub fn project_meta() -> (r: Meta)
    ensures
        r.semver@ == "3.0.0"@,
        r.vm@ == "0.2.0"@,
        r.agent@ == "Scrust 0.1.5"@,
{
    Meta {
        semver: String::from_str("3.0.0"),
        vm: String::from_str("0.2.0"),
        agent: String::from_str("Scrust 0.1.5"),
    }
}


impl Sb3Project {
    /// The project made of the compiled targets and the extension ids, with
    /// no monitors and this compiler's `meta` record.
    pub fn assemble(targets: Vec<Target>, extensions: Vec<String>) -> (r: Sb3Project)
        ensures
            r.targets == targets,
            r.extensions == extensions,
            r.monitors@.len() == 0,
            r.meta.semver@ == "3.0.0"@,
            r.meta.vm@ == "0.2.0"@,
            r.meta.agent@ == "Scrust 0.1.5"@,
    {
        Sb3Project { targets, monitors: Vec::new(), extensions, meta: project_meta() }
    }
}

} // verus!
